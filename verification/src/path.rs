//! Paths: their components, symbolic links, and the walk from the root to
//! the inode that a path names.

use crate::bytes::copy_range;
use crate::error::Ext2Error;
use crate::fs::{Ext2FileSystem, ROOT_INODE};
use crate::inode::Inode;
use crate::volume::Volume;
use vstd::prelude::*;

verus! {

/// The byte that separates the components of a path.
pub const SLASH: u8 = 47;

/// How many symbolic links one walk may go through.
pub const SYMLINK_LIMIT: u32 = 16;

/// The byte sequences that a list of names holds.
pub open spec fn names(v: Seq<Vec<u8>>) -> Seq<Seq<u8>> {
    v.map_values(|x: Vec<u8>| x@)
}

/// Where the component that begins at `i` ends: at the next separator or at
/// the end of the path.
pub open spec fn word_end(s: Seq<u8>, i: int) -> int
    decreases s.len() - i,
{
    if i >= s.len() || s[i] == SLASH {
        i
    } else {
        word_end(s, i + 1)
    }
}

/// A component that begins at a byte that is no separator has at least that
/// byte and ends inside the path.
pub proof fn lemma_word_end(s: Seq<u8>, i: int)
    requires
        0 <= i,
    ensures
        i <= word_end(s, i),
        i < s.len() ==> word_end(s, i) <= s.len(),
        i < s.len() && s[i] != SLASH ==> i < word_end(s, i),
    decreases s.len() - i,
{
    if i < s.len() && s[i] != SLASH {
        lemma_word_end(s, i + 1);
    }
}

/// The components of the path from `i` on: the runs of bytes between
/// separators, empty runs left out.
pub open spec fn components_from(s: Seq<u8>, i: int) -> Seq<Seq<u8>>
    decreases s.len() - i,
{
    if i < 0 || i >= s.len() {
        Seq::empty()
    } else if s[i] == SLASH {
        components_from(s, i + 1)
    } else {
        proof {
            lemma_word_end(s, i);
        }
        seq![s.subrange(i, word_end(s, i))] + components_from(s, word_end(s, i))
    }
}

/// The components of a path.
pub open spec fn components(s: Seq<u8>) -> Seq<Seq<u8>> {
    components_from(s, 0)
}

/// The value of byte `k` of a word, lowest byte first.
pub open spec fn word_byte(w: u32, k: int) -> u8 {
    if k == 0 {
        (w % 256) as u8
    } else if k == 1 {
        (w / 256 % 256) as u8
    } else if k == 2 {
        (w / 65536 % 256) as u8
    } else {
        (w / 16777216 % 256) as u8
    }
}

/// One step of a walk, as contracts see it.
pub enum StepView {
    /// Go into this inode.
    Enter(u32),
    /// Go on from this inode with these names put ahead.
    Follow(u32, Seq<Seq<u8>>),
}

/// One step of a walk.
pub enum Step {
    /// Go into this inode.
    Enter(u32),
    /// Go on from this inode with these names put ahead.
    Follow(u32, Vec<Vec<u8>>),
}

impl View for Step {
    type V = StepView;

    open spec fn view(&self) -> StepView {
        match self {
            Step::Enter(m) => StepView::Enter(*m),
            Step::Follow(from, parts) => StepView::Follow(*from, names(parts@)),
        }
    }
}

/// What lies ahead of a walk whose names are stacked with the next one on
/// top.
pub open spec fn pending(stack: Seq<Vec<u8>>) -> Seq<Seq<u8>> {
    Seq::new(stack.len(), |i: int| stack[stack.len() - 1 - i]@)
}

impl Volume {
    /// Whether an inode keeps the target of its link in the pointer fields.
    pub open spec fn is_fast_link(self, ino: Inode) -> bool {
        ino.size < 60 && ino.blocks == 0
    }

    /// Whether every byte of the first `len` of a file can be read.
    pub open spec fn all_readable(self, ino: Inode, len: int) -> bool {
        forall|k: int| 0 <= k < len ==> (#[trigger] self.file_byte(ino, k)) is Ok
    }

    /// The target of a symbolic link: the first `size` bytes of the inode's
    /// pointer fields where the inode keeps it there, else the first `size`
    /// bytes of its data, which must fit one block. `CorruptLayout` where the
    /// target is longer than a block or cannot be read.
    pub open spec fn link_target(self, ino: Inode) -> Result<Seq<u8>, Ext2Error> {
        if self.is_fast_link(ino) {
            Ok(Seq::new(ino.size as nat, |k: int| word_byte(ino.block[k / 4], k % 4)))
        } else if ino.size > self.bs() || !self.all_readable(ino, ino.size as int) {
            Err(Ext2Error::CorruptLayout)
        } else {
            Ok(Seq::new(ino.size as nat, |k: int| self.file_byte(ino, k)->Ok_0))
        }
    }

    /// What the walk does with the name `name` when it stands at inode
    /// `cur`, `depth` symbolic links having been gone through.
    ///
    /// `cur` must be a directory in use (`NotFound`, `NotADirectory`) and have
    /// the name (`NotFound`). The walk enters the inode that the name stands
    /// for; or, where that is a symbolic link, follows it: from the root where
    /// the target begins with a separator, else from `cur`, with the
    /// components of the target ahead. The seventeenth link gives
    /// `TooManySymlinks`.
    #[verifier::opaque]
    pub open spec fn next_step(self, cur: u32, name: Seq<u8>, depth: int) -> Result<
        StepView,
        Ext2Error,
    > {
        match self.dir_inode(cur as int) {
            Err(e) => Err(e),
            Ok(d) => match self.lookup_spec(d, name) {
                Err(e) => Err(e),
                Ok(m) => match self.read_inode_result(m as int) {
                    Err(e) => Err(e),
                    Ok(ino) => if !ino.spec_is_symlink() {
                        Ok(StepView::Enter(m))
                    } else if depth >= 16 {
                        Err(Ext2Error::TooManySymlinks)
                    } else {
                        match self.link_target(ino) {
                            Err(e) => Err(e),
                            Ok(t) => Ok(
                                StepView::Follow(
                                    if t.len() > 0 && t[0] == SLASH {
                                        ROOT_INODE
                                    } else {
                                        cur
                                    },
                                    components(t),
                                ),
                            ),
                        }
                    },
                },
            },
        }
    }

    /// Where a walk that stands at inode `cur` and has the names `comps`
    /// ahead ends, `depth` symbolic links having been gone through: at `cur`
    /// with no name ahead, else where the walk ends after the step that the
    /// first name asks for.
    pub open spec fn walk_from(self, cur: u32, comps: Seq<Seq<u8>>, depth: int) -> Result<
        u32,
        Ext2Error,
    >
        decreases 16 - depth, comps.len(),
    {
        if comps.len() == 0 {
            Ok(cur)
        } else {
            match self.next_step(cur, comps[0], depth) {
                Err(e) => Err(e),
                Ok(StepView::Enter(m)) => self.walk_from(m, comps.skip(1), depth),
                Ok(StepView::Follow(from, parts)) => if depth >= 16 {
                    Err(Ext2Error::TooManySymlinks)
                } else {
                    self.walk_from(from, parts + comps.skip(1), depth + 1)
                },
            }
        }
    }

    /// The inode that a path names, walking from the root.
    pub open spec fn resolve_path_spec(self, path: Seq<u8>) -> Result<u32, Ext2Error> {
        self.walk_from(ROOT_INODE, components(path), 0)
    }
}

/// The path that is one separator names the root, whatever the volume holds.
pub proof fn lemma_root_path(v: Volume)
    ensures
        v.resolve_path_spec(seq![SLASH]) == Ok::<u32, Ext2Error>(ROOT_INODE),
        v.resolve_path_spec(Seq::empty()) == Ok::<u32, Ext2Error>(ROOT_INODE),
{
    let s = seq![SLASH];
    assert(components_from(s, 1) =~= Seq::<Seq<u8>>::empty());
    assert(components_from(s, 0) =~= Seq::<Seq<u8>>::empty());
    assert(components_from(Seq::<u8>::empty(), 0) =~= Seq::<Seq<u8>>::empty());
}

/// A walk whose next name the directory does not have ends in `NotFound`.
pub proof fn lemma_missing_component(v: Volume, cur: u32, comps: Seq<Seq<u8>>, depth: int)
    requires
        comps.len() > 0,
        v.dir_inode(cur as int) matches Ok(d) && v.lookup_spec(d, comps[0]) == Err::<
            u32,
            Ext2Error,
        >(Ext2Error::NotFound),
    ensures
        v.walk_from(cur, comps, depth) == Err::<u32, Ext2Error>(Ext2Error::NotFound),
{
    reveal(Volume::next_step);
}

/// The components of a path, copied out.
pub fn split(path: &[u8]) -> (out: Vec<Vec<u8>>)
    ensures
        names(out@) == components(path@),
{
    let n = path.len();
    let mut out: Vec<Vec<u8>> = Vec::new();
    let mut i: usize = 0;
    assert(names(out@) =~= Seq::<Seq<u8>>::empty());
    while i < n
        invariant
            i <= n,
            n == path@.len(),
            components(path@) == names(out@) + components_from(path@, i as int),
        decreases n - i,
    {
        if path[i] == SLASH {
            i = i + 1;
        } else {
            let mut j = i + 1;
            while j < n && path[j] != SLASH
                invariant
                    i < j <= n,
                    n == path@.len(),
                    word_end(path@, i as int) == word_end(path@, j as int),
                decreases n - j,
            {
                j = j + 1;
            }
            let word = copy_range(path, i, j - i);
            let ghost before = names(out@);
            out.push(word);
            proof {
                assert(names(out@) =~= before + seq![path@.subrange(i as int, j as int)]);
                assert(before + (seq![path@.subrange(i as int, j as int)] + components_from(
                    path@,
                    j as int,
                )) =~= names(out@) + components_from(path@, j as int));
            }
            i = j;
        }
    }
    assert(names(out@) + Seq::<Seq<u8>>::empty() =~= names(out@));
    out
}

/// With the top name taken off, what lies ahead is what lay ahead without
/// its first name.
pub proof fn lemma_pending_pop(stack: Seq<Vec<u8>>)
    requires
        stack.len() > 0,
    ensures
        pending(stack).len() == stack.len(),
        pending(stack)[0] == stack.last()@,
        pending(stack.drop_last()) == pending(stack).skip(1),
{
    assert(pending(stack.drop_last()) =~= pending(stack).skip(1));
}

/// Taking the last name of a list and putting it on top of the stack
/// leaves the names of the list followed by what lies ahead as they were.
pub proof fn lemma_pending_move(parts: Seq<Vec<u8>>, stack: Seq<Vec<u8>>)
    requires
        parts.len() > 0,
    ensures
        names(parts.drop_last()) + pending(stack.push(parts.last())) == names(parts) + pending(
            stack,
        ),
{
    assert(names(parts.drop_last()) + pending(stack.push(parts.last())) =~= names(parts)
        + pending(stack));
}

/// Puts names on the stack so that the first of them is on top.
pub fn stack_up(stack: &mut Vec<Vec<u8>>, parts: Vec<Vec<u8>>)
    ensures
        pending(final(stack)@) == names(parts@) + pending(old(stack)@),
        final(stack)@.len() == old(stack)@.len() + parts@.len(),
{
    let mut parts = parts;
    let ghost all = names(parts@);
    let ghost rest = pending(stack@);
    while parts.len() > 0
        invariant
            all + rest == names(parts@) + pending(stack@),
            stack@.len() + parts@.len() == old(stack)@.len() + all.len(),
        decreases parts@.len(),
    {
        proof {
            lemma_pending_move(parts@, stack@);
        }
        let part = parts.pop().unwrap();
        stack.push(part);
    }
    assert(names(parts@) + pending(stack@) =~= pending(stack@));
}

/// Byte `k` of a word, lowest byte first.
pub fn byte_of_word(w: u32, k: usize) -> (b: u8)
    requires
        k < 4,
    ensures
        b == word_byte(w, k as int),
{
    if k == 0 {
        (w % 256) as u8
    } else if k == 1 {
        (w / 256 % 256) as u8
    } else if k == 2 {
        (w / 65536 % 256) as u8
    } else {
        (w / 16777216 % 256) as u8
    }
}

impl Ext2FileSystem {
    /// The target of the symbolic link with inode `ino`.
    pub fn read_link(&self, ino: &Inode) -> (r: Result<Vec<u8>, Ext2Error>)
        requires
            self.wf(),
        ensures
            match r {
                Ok(t) => self@.link_target(*ino) == Ok::<Seq<u8>, Ext2Error>(t@),
                Err(e) => self@.link_target(*ino) == Err::<Seq<u8>, Ext2Error>(e),
            },
    {
        let size = ino.size as usize;
        if ino.size < 60 && ino.blocks == 0 {
            let mut t: Vec<u8> = Vec::with_capacity(size);
            let mut k: usize = 0;
            while k < size
                invariant
                    k <= size,
                    size == ino.size,
                    size < 60,
                    t@.len() == k,
                    forall|j: int| 0 <= j < k ==> t@[j] == word_byte(ino.block@[j / 4], j % 4),
                decreases size - k,
            {
                t.push(byte_of_word(ino.block[k / 4], k % 4));
                k = k + 1;
            }
            assert(t@ =~= Seq::new(
                ino.size as nat,
                |k: int| word_byte(ino.block[k / 4], k % 4),
            ));
            return Ok(t);
        }
        if ino.size > self.block_size() {
            return Err(Ext2Error::CorruptLayout);
        }
        match self.read_range(ino, 0, size) {
            Ok(t) => {
                assert(self@.all_readable(*ino, ino.size as int)) by {
                    assert forall|k: int| 0 <= k < ino.size implies (#[trigger] self@.file_byte(
                        *ino,
                        k,
                    )) is Ok by {
                        assert(self@.file_byte(*ino, 0 + k) == Ok::<u8, Ext2Error>(t@[k]));
                    }
                }
                assert(t@ =~= Seq::new(ino.size as nat, |k: int| self@.file_byte(*ino, k)->Ok_0))
                    by {
                    assert forall|k: int| 0 <= k < ino.size implies t@[k] == self@.file_byte(
                        *ino,
                        k,
                    )->Ok_0 by {
                        assert(self@.file_byte(*ino, 0 + k) == Ok::<u8, Ext2Error>(t@[k]));
                    }
                }
                Ok(t)
            },
            Err(e) => {
                assert(!self@.all_readable(*ino, ino.size as int)) by {
                    let k = choose|k: int|
                        0 <= k < size && (#[trigger] self@.file_byte(*ino, 0 + k)) is Err;
                    assert(self@.file_byte(*ino, k) is Err);
                }
                Err(e)
            },
        }
    }

    /// What the walk does with `name` when it stands at inode `cur`.
    pub fn step(&self, cur: u32, name: &[u8], depth: u32) -> (r: Result<Step, Ext2Error>)
        requires
            self.wf(),
        ensures
            match r {
                Ok(s) => self@.next_step(cur, name@, depth as int) == Ok::<StepView, Ext2Error>(
                    s@,
                ),
                Err(e) => self@.next_step(cur, name@, depth as int) == Err::<
                    StepView,
                    Ext2Error,
                >(e),
            },
            r matches Ok(Step::Follow(_, _)) ==> depth < 16,
    {
        reveal(Volume::next_step);
        let d = match self.read_dir_inode(cur) {
            Ok(d) => d,
            Err(e) => {
                return Err(e);
            },
        };
        let m = match self.lookup_in(&d, name) {
            Ok(m) => m,
            Err(e) => {
                return Err(e);
            },
        };
        let ino = match self.read_inode(m) {
            Ok(ino) => ino,
            Err(e) => {
                return Err(e);
            },
        };
        if !ino.is_symlink() {
            return Ok(Step::Enter(m));
        }
        if depth >= SYMLINK_LIMIT {
            return Err(Ext2Error::TooManySymlinks);
        }
        let target = match self.read_link(&ino) {
            Ok(t) => t,
            Err(e) => {
                return Err(e);
            },
        };
        let from = if target.len() > 0 && target[0] == SLASH {
            ROOT_INODE
        } else {
            cur
        };
        Ok(Step::Follow(from, split(target.as_slice())))
    }

    /// The inode that the walk from the root along the names of `list` ends
    /// at.
    ///
    /// Each name is looked up in the directory that the walk stands in;
    /// with no name left the walk ends. A symbolic link is followed: the
    /// components of its target take the place of its name, and the walk
    /// goes on from the root where the target begins with a separator, else
    /// from the directory that holds the link. `NotFound` where a name is
    /// missing, `NotADirectory` where the walk stands in something else than
    /// a directory with names left, `TooManySymlinks` at the seventeenth
    /// link, `CorruptLayout` where a directory or a link cannot be read.
    pub fn resolve_components(&self, list: Vec<Vec<u8>>) -> (r: Result<u32, Ext2Error>)
        requires
            self.wf(),
        ensures
            r == self@.walk_from(ROOT_INODE, names(list@), 0),
    {
        self.walk(ROOT_INODE, list)
    }

    /// The inode that the walk from inode `from` along the names of `list`
    /// ends at; the walk is that of `resolve_components`, which begins at the
    /// root.
    pub fn walk(&self, from: u32, list: Vec<Vec<u8>>) -> (r: Result<u32, Ext2Error>)
        requires
            self.wf(),
        ensures
            r == self@.walk_from(from, names(list@), 0),
    {
        let mut stack: Vec<Vec<u8>> = Vec::new();
        let ghost start = names(list@);
        stack_up(&mut stack, list);
        assert(start + pending(Seq::<Vec<u8>>::empty()) =~= start);
        let mut cur: u32 = from;
        let mut depth: u32 = 0;
        while stack.len() > 0
            invariant
                self.wf(),
                depth <= 16,
                start == names(list@),
                self@.walk_from(from, start, 0) == self@.walk_from(
                    cur,
                    pending(stack@),
                    depth as int,
                ),
            decreases 16 - depth, stack@.len(),
        {
            let ghost ahead = pending(stack@);
            proof {
                lemma_pending_pop(stack@);
            }
            let name = stack.pop().unwrap();
            match self.step(cur, name.as_slice(), depth) {
                Err(e) => {
                    return Err(e);
                },
                Ok(Step::Enter(m)) => {
                    cur = m;
                },
                Ok(Step::Follow(from, parts)) => {
                    cur = from;
                    stack_up(&mut stack, parts);
                    depth = depth + 1;
                },
            }
        }
        proof {
            assert(pending(stack@) =~= Seq::<Seq<u8>>::empty());
        }
        Ok(cur)
    }

    /// The inode that a path names, walking from the root. The components
    /// of the path are the runs of bytes between separators; so `/` and the
    /// empty path name the root.
    pub fn resolve_path(&self, path: &[u8]) -> (r: Result<u32, Ext2Error>)
        requires
            self.wf(),
        ensures
            r == self@.resolve_path_spec(path@),
    {
        self.resolve_components(split(path))
    }
}

} // verus!
