//! The flags of a node, kept as a set in one byte.
use vstd::prelude::*;

verus! {

/// A single flag of a node. Only `Marked` means anything to the collector.
#[derive(Copy, Clone, Debug, PartialEq, Eq, Structural, Hash)]
pub enum DagNodeFlag {
    /// Reached in the current mark phase
    Marked,
    /// Has args that need destruction
    NeedsDestruction,
    /// Reduced up to strategy by equations
    Reduced,
    /// Copied in current copy operation
    Copied,
    /// Reduced and not rewritable by rules
    Unrewritable,
    /// Unrewritable and all subterms unstackable or frozen
    Unstackable,
    /// No variables occur below this node
    GroundFlag,
    /// Node has a valid hash value
    HashValid,
}

impl DagNodeFlag {
    /// Shares its bit with `Unrewritable`: the two strategies that need them are never combined.
    #[allow(non_upper_case_globals)]
    pub const IrreducibleByVariantEquations: DagNodeFlag = DagNodeFlag::Unrewritable;

    /// The bit that stands for this flag: the flags take the bits of a byte in the order
    /// in which they are declared, lowest first.
    pub open spec fn mask(self) -> u8 {
        match self {
            DagNodeFlag::Marked => 0x01,
            DagNodeFlag::NeedsDestruction => 0x02,
            DagNodeFlag::Reduced => 0x04,
            DagNodeFlag::Copied => 0x08,
            DagNodeFlag::Unrewritable => 0x10,
            DagNodeFlag::Unstackable => 0x20,
            DagNodeFlag::GroundFlag => 0x40,
            DagNodeFlag::HashValid => 0x80,
        }
    }

    /// The bit that stands for this flag.
    pub fn bit(self) -> (m: u8)
        ensures
            m == self.mask(),
    {
        match self {
            DagNodeFlag::Marked => 0x01,
            DagNodeFlag::NeedsDestruction => 0x02,
            DagNodeFlag::Reduced => 0x04,
            DagNodeFlag::Copied => 0x08,
            DagNodeFlag::Unrewritable => 0x10,
            DagNodeFlag::Unstackable => 0x20,
            DagNodeFlag::GroundFlag => 0x40,
            DagNodeFlag::HashValid => 0x80,
        }
    }
}

/// A set of flags.
#[derive(Copy, Clone, Debug, PartialEq, Eq, Structural, Hash)]
pub struct DagNodeFlags {
    bits: u8,
}

/// True of the eight bytes that have exactly one bit set.
pub open spec fn single_bit(m: u8) -> bool {
    m == 0x01 || m == 0x02 || m == 0x04 || m == 0x08 || m == 0x10 || m == 0x20 || m == 0x40 || m
        == 0x80
}

impl View for DagNodeFlags {
    type V = Set<DagNodeFlag>;

    /// The flags that are set.
    closed spec fn view(&self) -> Set<DagNodeFlag> {
        Set::new(|flag: DagNodeFlag| self.bits & flag.mask() != 0)
    }
}

impl DagNodeFlags {
    /// The set without any flag.
    pub fn empty() -> (flags: DagNodeFlags)
        ensures
            flags@ == Set::<DagNodeFlag>::empty(),
    {
        let flags = DagNodeFlags { bits: 0 };
        proof {
            assert forall|flag: DagNodeFlag| !flags@.contains(flag) by {
                let m = flag.mask();
                assert(0u8 & m == 0) by (bit_vector);
            }
            assert(flags@ =~= Set::<DagNodeFlag>::empty());
        }
        flags
    }

    /// The flags for rewriting: `Reduced`, `Unrewritable`, `Unstackable` and `GroundFlag`.
    pub fn rewriting_flags() -> (flags: DagNodeFlags)
        ensures
            flags@ == Set::<DagNodeFlag>::empty().insert(DagNodeFlag::Reduced).insert(
                DagNodeFlag::Unrewritable,
            ).insert(DagNodeFlag::Unstackable).insert(DagNodeFlag::GroundFlag),
    {
        let mut flags = DagNodeFlags::empty();
        flags.insert(DagNodeFlag::Reduced);
        flags.insert(DagNodeFlag::Unrewritable);
        flags.insert(DagNodeFlag::Unstackable);
        flags.insert(DagNodeFlag::GroundFlag);
        flags
    }

    /// Whether `flag` is in the set.
    pub fn contains(&self, flag: DagNodeFlag) -> (found: bool)
        ensures
            found == self@.contains(flag),
    {
        self.bits & flag.bit() != 0
    }

    /// Whether no flag is in the set.
    pub fn is_empty(&self) -> (none: bool)
        ensures
            none == (self@ == Set::<DagNodeFlag>::empty()),
    {
        proof {
            let b = self.bits;
            if b == 0 {
                assert forall|flag: DagNodeFlag| !self@.contains(flag) by {
                    let m = flag.mask();
                    assert(0u8 & m == 0) by (bit_vector);
                }
                assert(self@ =~= Set::<DagNodeFlag>::empty());
            } else {
                assert(b != 0 ==> (b & 0x01 != 0 || b & 0x02 != 0 || b & 0x04 != 0 || b & 0x08 != 0
                    || b & 0x10 != 0 || b & 0x20 != 0 || b & 0x40 != 0 || b & 0x80 != 0))
                    by (bit_vector);
                assert(self@.contains(DagNodeFlag::Marked) || self@.contains(
                    DagNodeFlag::NeedsDestruction,
                ) || self@.contains(DagNodeFlag::Reduced) || self@.contains(DagNodeFlag::Copied)
                    || self@.contains(DagNodeFlag::Unrewritable) || self@.contains(
                    DagNodeFlag::Unstackable,
                ) || self@.contains(DagNodeFlag::GroundFlag) || self@.contains(
                    DagNodeFlag::HashValid,
                ));
            }
        }
        self.bits == 0
    }

    /// Puts `flag` into the set.
    pub fn insert(&mut self, flag: DagNodeFlag)
        ensures
            final(self)@ == old(self)@.insert(flag),
    {
        let m = flag.bit();
        let ghost before = *self;
        self.bits = self.bits | m;
        proof {
            let b = before.bits;
            assert forall|other: DagNodeFlag|
                self@.contains(other) == before@.insert(flag).contains(other) by {
                let k = other.mask();
                assert(single_bit(m) && single_bit(k));
                assert(single_bit(m) && single_bit(k) ==> (((b | m) & k != 0) == (m == k || b & k
                    != 0))) by (bit_vector);
            }
            assert(self@ =~= before@.insert(flag));
        }
    }

    /// Takes `flag` out of the set.
    pub fn remove(&mut self, flag: DagNodeFlag)
        ensures
            final(self)@ == old(self)@.remove(flag),
    {
        let m = flag.bit();
        let ghost before = *self;
        self.bits = self.bits & !m;
        proof {
            let b = before.bits;
            assert forall|other: DagNodeFlag|
                self@.contains(other) == before@.remove(flag).contains(other) by {
                let k = other.mask();
                assert(single_bit(m) && single_bit(k));
                assert(single_bit(m) && single_bit(k) ==> (((b & !m) & k != 0) == (m != k && b & k
                    != 0))) by (bit_vector);
            }
            assert(self@ =~= before@.remove(flag));
        }
    }
}

impl Default for DagNodeFlags {
    fn default() -> (flags: DagNodeFlags)
        ensures
            flags@ == Set::<DagNodeFlag>::empty(),
    {
        DagNodeFlags::empty()
    }
}

} // verus!
