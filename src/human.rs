//! The byte-size value: an exact byte count with the binary unit it is shown in.
use vstd::prelude::*;
use vstd::std_specs::ops::AddSpec;

verus! {

/// Bytes in a kilobyte.
pub const KB: u64 = 1024;

/// Bytes in a megabyte.
pub const MB: u64 = 1048576;

/// Bytes in a gigabyte.
pub const GB: u64 = 1073741824;

/// Bytes in a terabyte.
pub const TB: u64 = 1099511627776;

/// A binary unit of bytes.
#[derive(Clone, Copy, Debug, PartialEq, Eq, Structural)]
pub enum Unit {
    Bytes,
    Kilo,
    Mega,
    Giga,
    Tera,
}

impl Unit {
    /// How many bytes one of this unit holds.
    pub open spec fn scale(self) -> nat {
        match self {
            Unit::Bytes => 1,
            Unit::Kilo => KB as nat,
            Unit::Mega => MB as nat,
            Unit::Giga => GB as nat,
            Unit::Tera => TB as nat,
        }
    }

    /// The suffix written after a number of this unit.
    pub open spec fn suffix(self) -> Seq<char> {
        match self {
            Unit::Bytes => seq!['B'],
            Unit::Kilo => seq!['K', 'B'],
            Unit::Mega => seq!['M', 'B'],
            Unit::Giga => seq!['G', 'B'],
            Unit::Tera => seq!['T', 'B'],
        }
    }
}

impl Unit {
    /// How many bytes one of this unit holds.
    pub fn bytes_per_unit(&self) -> (r: u64)
        ensures
            r == self.scale(),
    {
        match self {
            Unit::Bytes => 1,
            Unit::Kilo => KB,
            Unit::Mega => MB,
            Unit::Giga => GB,
            Unit::Tera => TB,
        }
    }
}

/// The smallest unit whose successor's size exceeds `n`: the unit `n` bytes
/// are best shown in.
pub open spec fn best_unit(n: nat) -> Unit {
    if n < KB {
        Unit::Bytes
    } else if n < MB {
        Unit::Kilo
    } else if n < GB {
        Unit::Mega
    } else if n < TB {
        Unit::Giga
    } else {
        Unit::Tera
    }
}

/// A size in bytes, tagged with the unit it is expressed in. The tag only
/// decides how the size is shown: equality and order go by the bytes alone.
#[derive(Clone, Copy)]
pub struct ByteSize(Size);

/// Each variant carries the size **in bytes**; the variant is the unit.
#[derive(Clone, Copy)]
enum Size {
    Bytes(u64),
    Kilo(u64),
    Mega(u64),
    Giga(u64),
    Tera(u64),
}

impl Default for ByteSize {
    fn default() -> (r: ByteSize)
        ensures
            r.bytes() == 0,
            r.tag() == Unit::Bytes,
    {
        ByteSize(Size::Bytes(0))
    }
}

impl From<Size> for Unit {
    fn from(value: Size) -> (r: Unit) {
        match value {
            Size::Bytes(_) => Unit::Bytes,
            Size::Kilo(_) => Unit::Kilo,
            Size::Mega(_) => Unit::Mega,
            Size::Giga(_) => Unit::Giga,
            Size::Tera(_) => Unit::Tera,
        }
    }
}

impl vstd::std_specs::convert::FromSpecImpl<Size> for Unit {
    open spec fn obeys_from_spec() -> bool {
        true
    }

    closed spec fn from_spec(value: Size) -> Unit {
        value.unit()
    }
}

impl Size {
    spec fn unit(self) -> Unit {
        match self {
            Size::Bytes(_) => Unit::Bytes,
            Size::Kilo(_) => Unit::Kilo,
            Size::Mega(_) => Unit::Mega,
            Size::Giga(_) => Unit::Giga,
            Size::Tera(_) => Unit::Tera,
        }
    }

    spec fn bytes(self) -> u64 {
        match self {
            Size::Bytes(b) => b,
            Size::Kilo(b) => b,
            Size::Mega(b) => b,
            Size::Giga(b) => b,
            Size::Tera(b) => b,
        }
    }
}

impl ByteSize {
    /// The exact number of bytes.
    pub closed spec fn bytes(self) -> u64 {
        self.0.bytes()
    }

    /// The unit the size is expressed in.
    pub closed spec fn tag(self) -> Unit {
        self.0.unit()
    }

    /// The size of `b` bytes, tagged with its best unit.
    pub closed spec fn of_bytes(b: u64) -> ByteSize {
        let u = best_unit(b as nat);
        ByteSize(
            match u {
                Unit::Bytes => Size::Bytes(b),
                Unit::Kilo => Size::Kilo(b),
                Unit::Mega => Size::Mega(b),
                Unit::Giga => Size::Giga(b),
                Unit::Tera => Size::Tera(b),
            },
        )
    }

    /// What `of_bytes` holds: the bytes given, in their best unit.
    pub proof fn lemma_of_bytes(b: u64)
        ensures
            ByteSize::of_bytes(b).bytes() == b,
            ByteSize::of_bytes(b).tag() == best_unit(b as nat),
    {
    }

    /// Normalizing twice gives what normalizing once gives, in bytes and in
    /// unit.
    pub proof fn lemma_normalize_idempotent(x: ByteSize)
        ensures
            ByteSize::of_bytes(ByteSize::of_bytes(x.bytes()).bytes()) == ByteSize::of_bytes(
                x.bytes(),
            ),
    {
    }

    /// The sum of two sizes holds the sum of their bytes, in the best unit of
    /// that sum, whatever units the two were in.
    pub proof fn lemma_add_best_fit(a: ByteSize, b: ByteSize)
        requires
            a.bytes() + b.bytes() <= u64::MAX,
        ensures
            a.add_spec(b).bytes() == a.bytes() + b.bytes(),
            a.add_spec(b).tag() == best_unit((a.bytes() + b.bytes()) as nat),
    {
    }

    /// Creates a size from a number of bits, dropping a remainder below a byte.
    pub fn from_bits_uncheked(b: u64) -> (r: ByteSize)
        ensures
            r.bytes() == b / 8,
            r.tag() == best_unit((b / 8) as nat),
    {
        ByteSize::from_bytes(b / 8)
    }

    /// Creates a size from a number of bytes, tagged with its best unit.
    pub fn from_bytes(b: u64) -> (r: ByteSize)
        ensures
            r.bytes() == b,
            r.tag() == best_unit(b as nat),
            r == ByteSize::of_bytes(b),
    {
        if b < KB {
            ByteSize(Size::Bytes(b))
        } else if b < MB {
            ByteSize(Size::Kilo(b))
        } else if b < GB {
            ByteSize(Size::Mega(b))
        } else if b < TB {
            ByteSize(Size::Giga(b))
        } else {
            ByteSize(Size::Tera(b))
        }
    }

    /// Creates a size from a number of kilobytes, tagged with its best unit.
    pub fn from_kb(kb: u64) -> (r: ByteSize)
        requires
            kb * KB <= u64::MAX,
        ensures
            r.bytes() == kb * KB,
            r.tag() == best_unit((kb * KB) as nat),
    {
        ByteSize::from_bytes(kb * KB)
    }

    /// Creates a size from a number of megabytes, tagged with its best unit.
    pub fn from_mb(mb: u64) -> (r: ByteSize)
        requires
            mb * MB <= u64::MAX,
        ensures
            r.bytes() == mb * MB,
            r.tag() == best_unit((mb * MB) as nat),
    {
        ByteSize::from_bytes(mb * MB)
    }

    /// Creates a size from a number of gigabytes, tagged with its best unit.
    pub fn from_gb(gb: u64) -> (r: ByteSize)
        requires
            gb * GB <= u64::MAX,
        ensures
            r.bytes() == gb * GB,
            r.tag() == best_unit((gb * GB) as nat),
    {
        ByteSize::from_bytes(gb * GB)
    }

    /// Creates a size from a number of terabytes, tagged with its best unit.
    pub fn from_tb(tb: u64) -> (r: ByteSize)
        requires
            tb * TB <= u64::MAX,
        ensures
            r.bytes() == tb * TB,
            r.tag() == best_unit((tb * TB) as nat),
    {
        ByteSize::from_bytes(tb * TB)
    }

    /// The suffix of the size's unit.
    pub fn unit_str(&self) -> (r: &'static str)
        ensures
            r@ == self.tag().suffix(),
    {
        proof {
            reveal_strlit("B");
            reveal_strlit("KB");
            reveal_strlit("MB");
            reveal_strlit("GB");
            reveal_strlit("TB");
        }
        match self.0 {
            Size::Bytes(_) => "B",
            Size::Kilo(_) => "KB",
            Size::Mega(_) => "MB",
            Size::Giga(_) => "GB",
            Size::Tera(_) => "TB",
        }
    }

    /// The size in bytes, whatever its unit.
    pub fn in_bytes(&self) -> (r: u64)
        ensures
            r == self.bytes(),
    {
        match self.0 {
            Size::Bytes(b) => b,
            Size::Kilo(b) => b,
            Size::Mega(b) => b,
            Size::Giga(b) => b,
            Size::Tera(b) => b,
        }
    }

    /// The same size, expressed in bytes.
    pub fn into_bytes(self) -> (r: ByteSize)
        ensures
            r.bytes() == self.bytes(),
            r.tag() == Unit::Bytes,
    {
        ByteSize(Size::Bytes(self.in_bytes()))
    }

    /// The same size, expressed in kilobytes.
    pub fn into_kb(self) -> (r: ByteSize)
        ensures
            r.bytes() == self.bytes(),
            r.tag() == Unit::Kilo,
    {
        ByteSize(Size::Kilo(self.in_bytes()))
    }

    /// The same size, expressed in megabytes.
    pub fn into_mb(self) -> (r: ByteSize)
        ensures
            r.bytes() == self.bytes(),
            r.tag() == Unit::Mega,
    {
        ByteSize(Size::Mega(self.in_bytes()))
    }

    /// The same size, expressed in gigabytes.
    pub fn into_gb(self) -> (r: ByteSize)
        ensures
            r.bytes() == self.bytes(),
            r.tag() == Unit::Giga,
    {
        ByteSize(Size::Giga(self.in_bytes()))
    }

    /// The same size, expressed in terabytes.
    pub fn into_tb(self) -> (r: ByteSize)
        ensures
            r.bytes() == self.bytes(),
            r.tag() == Unit::Tera,
    {
        ByteSize(Size::Tera(self.in_bytes()))
    }

    /// How many bytes one of the size's unit holds.
    pub fn divisor(&self) -> (r: u64)
        ensures
            r == self.tag().scale(),
    {
        match self.0 {
            Size::Bytes(_) => 1,
            Size::Kilo(_) => KB,
            Size::Mega(_) => MB,
            Size::Giga(_) => GB,
            Size::Tera(_) => TB,
        }
    }

    /// The same size, expressed in its best unit.
    pub fn normalize(self) -> (r: ByteSize)
        ensures
            r.bytes() == self.bytes(),
            r.tag() == best_unit(self.bytes() as nat),
            r == ByteSize::of_bytes(self.bytes()),
    {
        ByteSize::from_bytes(self.in_bytes())
    }

    /// The unit the size is expressed in.
    pub fn unit(&self) -> (r: Unit)
        ensures
            r == self.tag(),
    {
        Unit::from(self.0)
    }

    /// Adds `rhs` to the size in place; the result takes its best unit.
    pub fn add_assign(&mut self, rhs: ByteSize)
        requires
            old(self).bytes() + rhs.bytes() <= u64::MAX,
        ensures
            final(self).bytes() == old(self).bytes() + rhs.bytes(),
            final(self).tag() == best_unit((old(self).bytes() + rhs.bytes()) as nat),
    {
        let res = self.in_bytes() + rhs.in_bytes();
        *self = ByteSize::from_bytes(res);
    }

    /// Takes `rhs` from the size in place; the result takes its best unit.
    pub fn sub_assign(&mut self, rhs: ByteSize)
        requires
            rhs.bytes() <= old(self).bytes(),
        ensures
            final(self).bytes() == old(self).bytes() - rhs.bytes(),
            final(self).tag() == best_unit((old(self).bytes() - rhs.bytes()) as nat),
    {
        let res = self.in_bytes() - rhs.in_bytes();
        *self = ByteSize::from_bytes(res);
    }
}

impl core::ops::Add for ByteSize {
    type Output = ByteSize;

    fn add(self, rhs: ByteSize) -> (r: ByteSize) {
        ByteSize::from_bytes(self.in_bytes() + rhs.in_bytes())
    }
}

impl vstd::std_specs::ops::AddSpecImpl for ByteSize {
    open spec fn obeys_add_spec() -> bool {
        true
    }

    open spec fn add_req(self, rhs: ByteSize) -> bool {
        self.bytes() + rhs.bytes() <= u64::MAX
    }

    open spec fn add_spec(self, rhs: ByteSize) -> ByteSize {
        ByteSize::of_bytes((self.bytes() + rhs.bytes()) as u64)
    }
}

impl core::ops::Sub for ByteSize {
    type Output = ByteSize;

    fn sub(self, rhs: ByteSize) -> (r: ByteSize) {
        ByteSize::from_bytes(self.in_bytes() - rhs.in_bytes())
    }
}

impl vstd::std_specs::ops::SubSpecImpl for ByteSize {
    open spec fn obeys_sub_spec() -> bool {
        true
    }

    open spec fn sub_req(self, rhs: ByteSize) -> bool {
        rhs.bytes() <= self.bytes()
    }

    open spec fn sub_spec(self, rhs: ByteSize) -> ByteSize {
        ByteSize::of_bytes((self.bytes() - rhs.bytes()) as u64)
    }
}

impl PartialEq for ByteSize {
    fn eq(&self, other: &ByteSize) -> (r: bool) {
        self.in_bytes() == other.in_bytes()
    }
}

impl vstd::std_specs::cmp::PartialEqSpecImpl for ByteSize {
    open spec fn obeys_eq_spec() -> bool {
        true
    }

    open spec fn eq_spec(&self, other: &ByteSize) -> bool {
        self.bytes() == other.bytes()
    }
}

impl Eq for ByteSize {

}

impl PartialOrd for ByteSize {
    fn partial_cmp(&self, other: &ByteSize) -> (r: Option<core::cmp::Ordering>) {
        let a = self.in_bytes();
        let b = other.in_bytes();
        if a < b {
            Some(core::cmp::Ordering::Less)
        } else if a == b {
            Some(core::cmp::Ordering::Equal)
        } else {
            Some(core::cmp::Ordering::Greater)
        }
    }
}

impl vstd::std_specs::cmp::PartialOrdSpecImpl for ByteSize {
    open spec fn obeys_partial_cmp_spec() -> bool {
        true
    }

    open spec fn partial_cmp_spec(&self, other: &ByteSize) -> Option<core::cmp::Ordering> {
        if self.bytes() < other.bytes() {
            Some(core::cmp::Ordering::Less)
        } else if self.bytes() == other.bytes() {
            Some(core::cmp::Ordering::Equal)
        } else {
            Some(core::cmp::Ordering::Greater)
        }
    }
}

/// Relies on std's `Hash` for `u64`, which feeds the integer to the hasher;
/// nothing is claimed of the hasher's state.
pub assume_specification<H: core::hash::Hasher>[ <u64 as core::hash::Hash>::hash ](
    data: &u64,
    state: &mut H,
);

impl core::hash::Hash for ByteSize {
    fn hash<H: core::hash::Hasher>(&self, state: &mut H) {
        self.in_bytes().hash(state);
    }
}

} // verus!
