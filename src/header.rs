//! The header shared by every inner node: the optimistic version word and the
//! path-compressed prefix.
use vstd::prelude::*;
use crate::key::ArtKey;

verus! {

/// Number of prefix bytes stored in a header; longer prefixes are kept
/// optimistically (only their first bytes are stored).
pub const MAX_PREFIX_LEN: usize = 8;

/// Bit of the version word that marks a node as retired.
pub const OBSOLETE_BIT: u64 = 1;

/// Bit of the version word that marks a node as write-locked.
pub const LOCKED_BIT: u64 = 2;

/// Why an optimistic step has to be started again.
#[derive(PartialEq, Eq, Structural, Debug, Clone, Copy)]
pub enum Restart {
    /// A version check failed or the lock could not be taken.
    Retry,
    /// The node was retired by a writer.
    Obsolete,
}

pub open spec fn locked_spec(version: u64) -> bool {
    version & LOCKED_BIT == LOCKED_BIT
}

pub open spec fn obsolete_spec(version: u64) -> bool {
    version & OBSOLETE_BIT == OBSOLETE_BIT
}

/// Whether a version word has its lock bit set.
pub fn is_locked(version: u64) -> (r: bool)
    ensures
        r == locked_spec(version),
{
    version & LOCKED_BIT == LOCKED_BIT
}

/// Whether a version word has its obsolete bit set.
pub fn is_obsolete(version: u64) -> (r: bool)
    ensures
        r == obsolete_spec(version),
{
    version & OBSOLETE_BIT == OBSOLETE_BIT
}

/// The common part of every inner node.
pub struct NodeHeader {
    /// `(counter << 2) | locked_bit | obsolete_bit`.
    pub version: u64,
    /// Number of children of the node.
    pub num_children: u16,
    /// The stored bytes of the compressed prefix: its first
    /// `min(partial_len, MAX_PREFIX_LEN)` bytes.
    pub partial: Vec<u8>,
    /// The true length of the compressed prefix.
    pub partial_len: usize,
    /// The whole compressed prefix, of which `partial` is the stored part.
    pub full_prefix: Ghost<Seq<u8>>,
}

pub open spec fn min_len(a: int, b: int) -> int {
    if a < b { a } else { b }
}

/// Whether `key` has the bytes `part` at position `depth`.
pub open spec fn matches_at(key: Seq<u8>, depth: int, part: Seq<u8>) -> bool {
    &&& 0 <= depth
    &&& depth + part.len() <= key.len()
    &&& key.subrange(depth, depth + part.len()) == part
}

/// The first position `i < part.len()` at which `key[depth + i]` is absent or
/// differs from `part[i]`, or `part.len()` when there is none.
pub open spec fn first_mismatch(key: Seq<u8>, depth: int, part: Seq<u8>) -> int
    decreases part.len(),
{
    if part.len() == 0 {
        0
    } else if depth >= key.len() || key[depth] != part[0] {
        0
    } else {
        1 + first_mismatch(key, depth + 1, part.drop_first())
    }
}

impl NodeHeader {
    /// The prefix fields agree: the stored part is the start of the full
    /// prefix, as long as `MAX_PREFIX_LEN` allows.
    pub open spec fn wf(&self) -> bool {
        &&& self.partial_len == self.full_prefix@.len()
        &&& self.partial@ == self.full_prefix@.take(min_len(self.partial_len as int, MAX_PREFIX_LEN as int))
    }

    /// Neither locked nor obsolete: the state of every node in a tree
    /// between operations.
    pub open spec fn is_idle(&self) -> bool {
        !self.is_locked_spec() && !self.is_obsolete_spec()
    }

    pub open spec fn is_locked_spec(&self) -> bool {
        locked_spec(self.version)
    }

    pub open spec fn is_obsolete_spec(&self) -> bool {
        obsolete_spec(self.version)
    }

    /// Version zero is neither locked nor obsolete.
    pub proof fn lemma_version_zero_idle()
        ensures
            !locked_spec(0),
            !obsolete_spec(0),
    {
        assert(0u64 & 2 == 0) by (bit_vector);
        assert(0u64 & 1 == 0) by (bit_vector);
    }

    /// A fresh header: version zero, no children, empty prefix.
    pub fn new() -> (r: Self)
        ensures
            r.wf(),
            r.version == 0,
            r.num_children == 0,
            r.partial_len == 0,
            !r.is_locked_spec(),
            !r.is_obsolete_spec(),
    {
        let r = NodeHeader {
            version: 0,
            num_children: 0,
            partial: Vec::new(),
            partial_len: 0,
            full_prefix: Ghost(Seq::empty()),
        };
        proof {
            assert(r.partial@ =~= r.full_prefix@.take(0));
            assert(0u64 & 2 == 0) by (bit_vector);
            assert(0u64 & 1 == 0) by (bit_vector);
        }
        r
    }

    /// A fresh header with the given compressed prefix.
    pub(crate) fn with_prefix(partial: Vec<u8>, partial_len: usize, full_prefix: Ghost<Seq<u8>>) -> (r: Self)
        requires
            partial_len == full_prefix@.len(),
            partial@ == full_prefix@.take(min_len(partial_len as int, MAX_PREFIX_LEN as int)),
        ensures
            r.wf(),
            r.version == 0,
            r.num_children == 0,
            r.partial == partial,
            r.partial_len == partial_len,
            r.full_prefix == full_prefix,
    {
        NodeHeader { version: 0, num_children: 0, partial, partial_len, full_prefix }
    }

    /// A fresh header whose compressed prefix is `prefix`; its first
    /// `MAX_PREFIX_LEN` bytes are stored.
    pub fn from_prefix(prefix: &Vec<u8>) -> (r: Self)
        ensures
            r.wf(),
            r.version == 0,
            r.num_children == 0,
            r.full_prefix@ == prefix@,
            r.partial_len == prefix@.len(),
    {
        let n = prefix.len();
        let stored = if n < MAX_PREFIX_LEN { n } else { MAX_PREFIX_LEN };
        let mut partial: Vec<u8> = Vec::new();
        let mut i: usize = 0;
        while i < stored
            invariant
                i <= stored,
                stored <= n,
                n == prefix@.len(),
                partial@ == prefix@.take(i as int),
            decreases stored - i,
        {
            partial.push(prefix[i]);
            assert(partial@ =~= prefix@.take(i + 1));
            i += 1;
        }
        NodeHeader { version: 0, num_children: 0, partial, partial_len: n, full_prefix: Ghost(prefix@) }
    }

    /// The true length of the compressed prefix.
    pub fn get_partial_len(&self) -> (r: usize)
        ensures
            r == self.partial_len,
    {
        self.partial_len
    }

    /// The current version word.
    pub fn read_version(&self) -> (r: u64)
        ensures
            r == self.version,
    {
        self.version
    }

    /// Whether the node is write-locked.
    pub fn is_locked(&self) -> (r: bool)
        ensures
            r == self.is_locked_spec(),
    {
        is_locked(self.version)
    }

    /// Takes the version to validate later reads against; fails when the
    /// node is locked or obsolete.
    pub fn read_lock_or_restart(&self) -> (r: Result<u64, Restart>)
        ensures
            self.is_locked_spec() ==> r == Err::<u64, Restart>(Restart::Retry),
            !self.is_locked_spec() && self.is_obsolete_spec() ==> r == Err::<u64, Restart>(Restart::Obsolete),
            !self.is_locked_spec() && !self.is_obsolete_spec() ==> r == Ok::<u64, Restart>(self.version),
    {
        if self.is_locked() {
            return Err(Restart::Retry);
        }
        if is_obsolete(self.version) {
            return Err(Restart::Obsolete);
        }
        Ok(self.version)
    }

    /// Validates a version taken earlier: `true` (restart) when the node's
    /// version `header` is no longer `version`.
    pub fn read_unlock_or_restart(header: u64, version: u64) -> (r: bool)
        ensures
            r == (header != version),
    {
        header != version
    }

    /// Takes the write lock: `false` on success, `true` (restart) when the node
    /// is obsolete or already locked by another writer.
    pub fn write_lock_or_restart(&mut self) -> (r: bool)
        ensures
            r == (old(self).is_locked_spec() || old(self).is_obsolete_spec()),
            !r ==> final(self).version == old(self).version.wrapping_add(2),
            !r ==> final(self).is_locked_spec() && !final(self).is_obsolete_spec(),
            r ==> final(self).version == old(self).version,
            final(self).num_children == old(self).num_children,
            final(self).partial == old(self).partial,
            final(self).partial_len == old(self).partial_len,
            final(self).full_prefix == old(self).full_prefix,
    {
        if self.is_locked() || is_obsolete(self.version) {
            return true;
        }
        let v = self.version;
        proof {
            assert(v & 2 != 2 && v & 1 != 1 ==> (v.wrapping_add(2) & 2 == 2) && (v.wrapping_add(2) & 1 != 1)) by (bit_vector);
        }
        self.version = v.wrapping_add(2);
        false
    }

    /// Upgrades a read of version `version` to the write lock: succeeds only
    /// when the node still has that version and it was neither locked nor
    /// obsolete.
    pub fn upgrade_to_write_lock_or_restart(&mut self, version: u64) -> (r: Result<(), Restart>)
        ensures
            r is Ok <==> (old(self).version == version && !locked_spec(version) && !obsolete_spec(version)),
            r is Ok ==> final(self).version == version.wrapping_add(2) && final(self).is_locked_spec()
                && !final(self).is_obsolete_spec(),
            r is Err ==> final(self).version == old(self).version,
            final(self).num_children == old(self).num_children,
            final(self).partial == old(self).partial,
            final(self).partial_len == old(self).partial_len,
            final(self).full_prefix == old(self).full_prefix,
    {
        if self.version != version || is_locked(version) || is_obsolete(version) {
            return Err(Restart::Retry);
        }
        proof {
            assert(version & 2 != 2 && version & 1 != 1 ==> (version.wrapping_add(2) & 2 == 2) && (version.wrapping_add(2) & 1 != 1)) by (bit_vector);
        }
        self.version = version.wrapping_add(2);
        Ok(())
    }

    /// Upgrades this node as `upgrade_to_write_lock_or_restart` does; on
    /// failure releases the lock that the caller holds on `locked` (the
    /// parent) before asking for a restart.
    pub fn upgrade_to_write_lock_or_write_unlock_and_restart(
        &mut self,
        version: u64,
        locked: &mut NodeHeader,
    ) -> (r: Result<(), Restart>)
        requires
            old(locked).is_locked_spec(),
        ensures
            r is Ok <==> (old(self).version == version && !locked_spec(version) && !obsolete_spec(version)),
            r is Ok ==> final(self).version == version.wrapping_add(2) && final(self).is_locked_spec(),
            r is Ok ==> *final(locked) == *old(locked),
            r is Err ==> final(self).version == old(self).version,
            r is Err ==> final(locked).version == old(locked).version.wrapping_add(2)
                && !final(locked).is_locked_spec(),
            final(self).num_children == old(self).num_children,
            final(self).partial == old(self).partial,
            final(self).partial_len == old(self).partial_len,
            final(self).full_prefix == old(self).full_prefix,
    {
        match self.upgrade_to_write_lock_or_restart(version) {
            Ok(()) => Ok(()),
            Err(e) => {
                locked.write_unlock();
                Err(e)
            },
        }
    }

    /// Releases the write lock; the counter moves on by one.
    pub fn write_unlock(&mut self)
        requires
            old(self).is_locked_spec(),
        ensures
            final(self).version == old(self).version.wrapping_add(2),
            !final(self).is_locked_spec(),
            final(self).is_obsolete_spec() == old(self).is_obsolete_spec(),
            final(self).num_children == old(self).num_children,
            final(self).partial == old(self).partial,
            final(self).partial_len == old(self).partial_len,
            final(self).full_prefix == old(self).full_prefix,
    {
        let v = self.version;
        let n = v.wrapping_add(2);
        proof {
            assert(v & 2 == 2 ==> (v.wrapping_add(2) & 2 != 2)
                && ((v.wrapping_add(2) & 1 == 1) == (v & 1 == 1))) by (bit_vector);
        }
        self.version = n;
    }

    /// Releases the write lock and retires the node: it is obsolete from now
    /// on and the counter moves on by one.
    pub fn write_unlock_obsolete(&mut self)
        requires
            old(self).is_locked_spec(),
            !old(self).is_obsolete_spec(),
        ensures
            final(self).version == old(self).version.wrapping_add(3),
            !final(self).is_locked_spec(),
            final(self).is_obsolete_spec(),
            final(self).num_children == old(self).num_children,
            final(self).partial == old(self).partial,
            final(self).partial_len == old(self).partial_len,
            final(self).full_prefix == old(self).full_prefix,
    {
        let v = self.version;
        let n = v.wrapping_add(3);
        proof {
            assert(v & 2 == 2 && v & 1 != 1 ==> (v.wrapping_add(3) & 2 != 2)
                && (v.wrapping_add(3) & 1 == 1)) by (bit_vector);
        }
        self.version = n;
    }

    /// Locks an idle node, leaving the lock held by the caller: `false` on
    /// success (the version moves on by two, the lock bit is set, the
    /// obsolete bit stays clear), `true` (restart) when the node is already
    /// locked or obsolete.
    pub fn lock_version_or_restart(&mut self) -> (r: bool)
        ensures
            r == (old(self).is_locked_spec() || old(self).is_obsolete_spec()),
            r ==> final(self).version == old(self).version,
            !r ==> final(self).version == old(self).version + 2,
            !r ==> final(self).is_locked_spec() && !final(self).is_obsolete_spec(),
            final(self).num_children == old(self).num_children,
            final(self).partial == old(self).partial,
            final(self).partial_len == old(self).partial_len,
            final(self).full_prefix == old(self).full_prefix,
    {
        if self.is_locked() || is_obsolete(self.version) {
            return true;
        }
        let v = self.version;
        proof {
            assert(v & 2 != 2 && v & 1 != 1 ==> v <= 0xffff_ffff_ffff_fffdu64
                && ((v + 2) as u64 & 2 == 2) && ((v + 2) as u64 & 1 != 1)) by (bit_vector);
        }
        self.version = v + 2;
        false
    }

    /// Whether the stored prefix bytes stand in `key` at `depth`.
    pub fn prefix_match(&self, key: &Vec<u8>, depth: usize) -> (r: bool)
        ensures
            r == matches_at(key@, depth as int, self.partial@),
    {
        let n = self.partial.len();
        if depth > key.len() || n > key.len() - depth {
            return false;
        }
        let mut i: usize = 0;
        while i < n
            invariant
                i <= n,
                n == self.partial@.len(),
                depth + n <= key.len(),
                forall|j: int| 0 <= j < i ==> key@[depth + j] == self.partial@[j],
            decreases n - i,
        {
            assert(depth + i < key@.len());
            if key[depth + i] != self.partial[i] {
                assert(key@.subrange(depth as int, depth + n)[i as int] != self.partial@[i as int]);
                return false;
            }
            i += 1;
        }
        assert(key@.subrange(depth as int, depth + n) =~= self.partial@);
        true
    }

    /// Where the walk for `key` goes on after this node's prefix at `level`:
    /// `Ok` with the level past the prefix when the stored prefix bytes
    /// match, else `Err(level)`.
    pub fn prefix_matches(&self, key: &Vec<u8>, level: usize) -> (r: Result<usize, usize>)
        ensures
            matches_at(key@, level as int, self.partial@) && level + self.partial_len <= usize::MAX
                ==> r == Ok::<usize, usize>((level + self.partial_len) as usize),
            !(matches_at(key@, level as int, self.partial@) && level + self.partial_len <= usize::MAX)
                ==> r == Err::<usize, usize>(level),
    {
        if self.prefix_match(key, level) && self.partial_len <= usize::MAX - level {
            Ok(level + self.partial_len)
        } else {
            Err(level)
        }
    }

    /// The position of the first stored prefix byte that `key` does not have
    /// at `depth`; when all stored bytes match, the full prefix length
    /// (bytes beyond the stored ones are taken optimistically).
    pub fn compute_prefix_match<Q: ArtKey>(&self, key: &Q, depth: usize) -> (r: usize)
        ensures
            first_mismatch(key.bytes_spec(), depth as int, self.partial@) < self.partial@.len() ==> r
                == first_mismatch(key.bytes_spec(), depth as int, self.partial@),
            first_mismatch(key.bytes_spec(), depth as int, self.partial@) == self.partial@.len() ==> r == self.partial_len,
    {
        let k = key.bytes();
        let n = self.partial.len();
        let mut i: usize = 0;
        assert(self.partial@.skip(0) =~= self.partial@);
        while i < n
            invariant
                i <= n,
                n == self.partial@.len(),
                k@ == key.bytes_spec(),
                first_mismatch(k@, depth as int, self.partial@) == i + first_mismatch(k@, depth + i, self.partial@.skip(i as int)),
            decreases n - i,
        {
            let at = depth as u128 + i as u128;
            proof {
                let rest = self.partial@.skip(i as int);
                assert(rest.drop_first() =~= self.partial@.skip(i + 1));
            }
            if at >= k.len() as u128 {
                return i;
            }
            assert(depth + i < k@.len());
            if k[depth + i] != self.partial[i] {
                return i;
            }
            i += 1;
        }
        proof {
            assert(self.partial@.skip(n as int).len() == 0);
        }
        self.partial_len
    }
}

} // verus!
