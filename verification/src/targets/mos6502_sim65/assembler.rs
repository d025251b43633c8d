//! 6502 instruction encodings, and the labels that tie them together.
//!
//! A conditional is two bytes when its target is within the 127 the
//! machine's relative branches reach, and five when it is not: the inverse
//! branch over a `jmp`. Which is which cannot be known until the addresses
//! are, so [`Assembler::finish`] reports the ones that did not fit and the
//! caller assembles again.

use vstd::prelude::*;

verus! {

#[derive(Clone, Copy, Debug, PartialEq, Eq, Structural)]
pub struct Label(pub usize);

/// A condition, as the branch that takes it.
#[derive(Clone, Copy, Debug, PartialEq, Eq, Structural)]
pub enum Cc {
    Equal,
    NotEqual,
    NoCarry,
    Carry,
}

impl Cc {
    /// The branch taken when this condition holds.
    pub open spec fn when(self) -> u8 {
        match self {
            Cc::Equal => 0xF0,  // beq
            Cc::NotEqual => 0xD0,  // bne
            Cc::NoCarry => 0x90,  // bcc
            Cc::Carry => 0xB0,  // bcs
        }
    }

    /// The branch taken when it does not, for hopping over a `jmp`.
    pub open spec fn unless(self) -> u8 {
        match self {
            Cc::Equal => 0xD0,
            Cc::NotEqual => 0xF0,
            Cc::NoCarry => 0xB0,
            Cc::Carry => 0x90,
        }
    }

    pub fn taken(self) -> (opcode: u8)
        ensures
            opcode == self.when(),
    {
        match self {
            Cc::Equal => 0xF0,
            Cc::NotEqual => 0xD0,
            Cc::NoCarry => 0x90,
            Cc::Carry => 0xB0,
        }
    }

    pub fn inverse(self) -> (opcode: u8)
        ensures
            opcode == self.unless(),
    {
        match self {
            Cc::Equal => 0xD0,
            Cc::NotEqual => 0xF0,
            Cc::NoCarry => 0xB0,
            Cc::Carry => 0x90,
        }
    }
}

/// The low byte of an address.
pub open spec fn low(value: nat) -> u8 {
    (value % 256) as u8
}

/// The high byte of an address.
pub open spec fn high(value: nat) -> u8 {
    (value / 256 % 256) as u8
}

/// Code with holes in it, waiting for the addresses of labels.
#[verifier::ext_equal]
pub struct Listing {
    pub bytes: Seq<u8>,
    /// How far in each label landed, once it has been bound.
    pub labels: Seq<Option<nat>>,
    /// Each two-byte hole, and the label it waits on.
    pub holes: Seq<(nat, Label)>,
    /// The one-byte holes a relative branch leaves, with the branch's number
    /// so that it can be lengthened.
    pub near: Seq<(nat, Label, nat)>,
    /// One-byte holes wanting half of a label's address, and which half.
    pub halves: Seq<(nat, Label, bool)>,
    /// Which branches, by number, have been found not to reach.
    pub far: Seq<bool>,
    pub branches: nat,
    pub origin: u16,
    /// Whether something came up that this target does not have.
    pub failed: bool,
}

impl Listing {
    pub open spec fn start(origin: u16, far: Seq<bool>) -> Listing {
        Listing {
            bytes: seq![],
            labels: seq![],
            holes: seq![],
            near: seq![],
            halves: seq![],
            far,
            branches: 0,
            origin,
            failed: false,
        }
    }

    pub open spec fn emit(self, code: Seq<u8>) -> Listing {
        Listing { bytes: self.bytes + code, ..self }
    }

    pub open spec fn fail(self) -> Listing {
        Listing { failed: true, ..self }
    }

    /// The label that comes next.
    pub open spec fn next(self) -> Label {
        Label(self.labels.len() as usize)
    }

    pub open spec fn label(self) -> Listing {
        Listing { labels: self.labels.push(None), ..self }
    }

    pub open spec fn bind(self, label: Label) -> Listing {
        Listing { labels: self.labels.update(label.0 as int, Some(self.bytes.len())), ..self }
    }

    /// Two bytes that will be a label's address.
    pub open spec fn hole(self, label: Label) -> Listing {
        Listing { holes: self.holes.push((self.bytes.len(), label)), ..self }.emit(seq![0u8, 0u8])
    }

    /// Whether a branch, by number, has been found not to reach.
    pub open spec fn is_far(self, branch: nat) -> bool {
        branch < self.far.len() && self.far[branch as int]
    }

    /// Half of a label's address, as an immediate.
    pub open spec fn lda_imm_half(self, label: Label, high: bool) -> Listing {
        let opened = self.emit(seq![0xA9u8]);
        Listing { halves: opened.halves.push((opened.bytes.len(), label, high)), ..opened }.emit(
            seq![0u8],
        )
    }

    /// A literal word, for data the target lays down itself.
    pub open spec fn word(self, value: u16) -> Listing {
        self.emit(seq![low(value as nat), high(value as nat)])
    }

    pub open spec fn jsr(self, label: Label) -> Listing {
        self.emit(seq![0x20u8]).hole(label)
    }

    pub open spec fn jmp(self, label: Label) -> Listing {
        self.emit(seq![0x4Cu8]).hole(label)
    }

    pub open spec fn jsr_abs(self, at: u16) -> Listing {
        self.emit(seq![0x20u8, low(at as nat), high(at as nat)])
    }

    pub open spec fn jmp_abs(self, at: u16) -> Listing {
        self.emit(seq![0x4Cu8, low(at as nat), high(at as nat)])
    }

    /// Two bytes where the target is thought to be near, five where it is
    /// known not to be.
    pub open spec fn branch(self, cc: Cc, label: Label) -> Listing {
        let counted = Listing { branches: self.branches + 1, ..self };
        if self.is_far(self.branches) {
            counted.emit(seq![cc.unless(), 3u8]).jmp(label)
        } else {
            let opened = counted.emit(seq![cc.when()]);
            Listing {
                near: opened.near.push((opened.bytes.len(), label, self.branches)),
                ..opened
            }.emit(seq![0u8])
        }
    }

    pub open spec fn lda_imm(self, value: u8) -> Listing {
        self.emit(seq![0xA9u8, value])
    }

    pub open spec fn lda_zp(self, at: u8) -> Listing {
        self.emit(seq![0xA5u8, at])
    }

    pub open spec fn sta_zp(self, at: u8) -> Listing {
        self.emit(seq![0x85u8, at])
    }

    pub open spec fn lda_ind_y(self, pair: u8) -> Listing {
        self.emit(seq![0xB1u8, pair])
    }

    pub open spec fn sta_ind_y(self, pair: u8) -> Listing {
        self.emit(seq![0x91u8, pair])
    }

    pub open spec fn ldx_imm(self, value: u8) -> Listing {
        self.emit(seq![0xA2u8, value])
    }

    pub open spec fn ldx_zp(self, at: u8) -> Listing {
        self.emit(seq![0xA6u8, at])
    }

    pub open spec fn ldy_imm(self, value: u8) -> Listing {
        self.emit(seq![0xA0u8, value])
    }

    pub open spec fn adc_zp(self, at: u8) -> Listing {
        self.emit(seq![0x65u8, at])
    }

    pub open spec fn adc_imm(self, value: u8) -> Listing {
        self.emit(seq![0x69u8, value])
    }

    pub open spec fn sbc_zp(self, at: u8) -> Listing {
        self.emit(seq![0xE5u8, at])
    }

    pub open spec fn sbc_imm(self, value: u8) -> Listing {
        self.emit(seq![0xE9u8, value])
    }

    pub open spec fn and_imm(self, value: u8) -> Listing {
        self.emit(seq![0x29u8, value])
    }

    pub open spec fn cmp_imm(self, value: u8) -> Listing {
        self.emit(seq![0xC9u8, value])
    }

    pub open spec fn inc_zp(self, at: u8) -> Listing {
        self.emit(seq![0xE6u8, at])
    }

    pub open spec fn dec_zp(self, at: u8) -> Listing {
        self.emit(seq![0xC6u8, at])
    }

    pub open spec fn cmp_zp(self, at: u8) -> Listing {
        self.emit(seq![0xC5u8, at])
    }

    pub open spec fn ora_zp(self, at: u8) -> Listing {
        self.emit(seq![0x05u8, at])
    }

    pub open spec fn iny(self) -> Listing {
        self.emit(seq![0xC8u8])
    }

    pub open spec fn txs(self) -> Listing {
        self.emit(seq![0x9Au8])
    }

    pub open spec fn clc(self) -> Listing {
        self.emit(seq![0x18u8])
    }

    pub open spec fn sec(self) -> Listing {
        self.emit(seq![0x38u8])
    }

    pub open spec fn rts(self) -> Listing {
        self.emit(seq![0x60u8])
    }

    /// The address a label ended up at, where it was bound.
    pub open spec fn target(self, label: Label) -> Option<nat> {
        if label.0 < self.labels.len() {
            match self.labels[label.0 as int] {
                Some(at) => Some(self.origin as nat + at),
                None => None,
            }
        } else {
            None
        }
    }

    /// Whether a label was bound, in the code that is there, to an address
    /// sixteen bits hold.
    pub open spec fn lands(self, label: Label) -> bool {
        self.target(label) matches Some(at) && at <= 0xFFFF && at <= self.origin
            + self.bytes.len()
    }

    /// Whether every hole can be filled, and every label named.
    pub open spec fn closes(self) -> bool {
        &&& self.labels.len() <= usize::MAX
        &&& forall|i: int|
            0 <= i < self.holes.len() ==> (#[trigger] self.holes[i]).0 + 1 < self.bytes.len()
                && self.lands(self.holes[i].1)
        &&& forall|i: int|
            0 <= i < self.halves.len() ==> (#[trigger] self.halves[i]).0 < self.bytes.len()
                && self.lands(self.halves[i].1)
        &&& forall|i: int|
            0 <= i < self.near.len() ==> (#[trigger] self.near[i]).0 < self.bytes.len()
                && self.lands(self.near[i].1) && self.origin + self.near[i].0 + 1 <= 0xFFFF
    }

    /// How far a branch has to go, counted from its end, which is the byte
    /// after the displacement.
    pub open spec fn displacement(self, at: nat, label: Label) -> int {
        self.target(label)->0 - (self.origin + at + 1)
    }

    pub open spec fn reaches(self, at: nat, label: Label) -> bool {
        -128 <= self.displacement(at, label) <= 127
    }

    /// The code, once the first `count` two-byte holes are filled.
    pub open spec fn with_holes(self, count: int) -> Seq<u8>
        decreases count,
    {
        if count <= 0 {
            self.bytes
        } else {
            let (at, label) = self.holes[count - 1];
            let target = self.target(label)->0;
            self.with_holes(count - 1).update(at as int, low(target)).update(at as int + 1, high(target))
        }
    }

    /// Then the first `count` halves.
    pub open spec fn with_halves(self, count: int) -> Seq<u8>
        decreases count,
    {
        if count <= 0 {
            self.with_holes(self.holes.len() as int)
        } else {
            let (at, label, upper) = self.halves[count - 1];
            let target = self.target(label)->0;
            self.with_halves(count - 1).update(
                at as int,
                if upper {
                    high(target)
                } else {
                    low(target)
                },
            )
        }
    }

    /// Then the first `count` branches, those that reach.
    pub open spec fn with_near(self, count: int) -> Seq<u8>
        decreases count,
    {
        if count <= 0 {
            self.with_halves(self.halves.len() as int)
        } else {
            let (at, label, branch) = self.near[count - 1];
            if self.reaches(at, label) {
                self.with_near(count - 1).update(
                    at as int,
                    (self.displacement(at, label) % 256) as u8,
                )
            } else {
                self.with_near(count - 1)
            }
        }
    }

    /// Of the first `count` branches, those that do not reach, by number.
    pub open spec fn overflowed(self, count: int) -> Seq<nat>
        decreases count,
    {
        if count <= 0 {
            seq![]
        } else {
            let (at, label, branch) = self.near[count - 1];
            if self.reaches(at, label) {
                self.overflowed(count - 1)
            } else {
                self.overflowed(count - 1).push(branch)
            }
        }
    }

    /// Whether every label that was bound is in the code that is there.
    pub open spec fn is_marked(self) -> bool {
        forall|l: int|
            0 <= l < self.labels.len() ==> (#[trigger] self.labels[l] matches Some(at) ==> at
                <= self.bytes.len())
    }

    /// Labels are bound and holes lie apart from each other in the code that
    /// is there, and the branches that wait are those not known to be far.
    pub open spec fn tidy(self) -> bool {
        &&& self.branches <= self.bytes.len()
        &&& self.is_marked()
        &&& forall|i: int|
            0 <= i < self.holes.len() ==> (#[trigger] self.holes[i]).0 + 2 <= self.bytes.len()
        &&& forall|i: int|
            0 <= i < self.halves.len() ==> (#[trigger] self.halves[i]).0 < self.bytes.len()
        &&& forall|i: int|
            0 <= i < self.near.len() ==> (#[trigger] self.near[i]).0 < self.bytes.len()
        &&& forall|i: int, j: int|
            0 <= i < j < self.holes.len() ==> (#[trigger] self.holes[i]).0 + 2 <= (
            #[trigger] self.holes[j]).0
        &&& forall|i: int, j: int|
            0 <= i < j < self.halves.len() ==> (#[trigger] self.halves[i]).0 < (
            #[trigger] self.halves[j]).0
        &&& forall|i: int, j: int|
            0 <= i < j < self.near.len() ==> (#[trigger] self.near[i]).0 < (
            #[trigger] self.near[j]).0
        &&& forall|i: int, j: int|
            0 <= i < self.holes.len() && 0 <= j < self.halves.len() ==> self.apart(
                #[trigger] self.holes[i].0,
                #[trigger] self.halves[j].0,
            )
        &&& forall|i: int, j: int|
            0 <= i < self.holes.len() && 0 <= j < self.near.len() ==> self.apart(
                #[trigger] self.holes[i].0,
                #[trigger] self.near[j].0,
            )
        &&& forall|i: int, j: int|
            0 <= i < self.halves.len() && 0 <= j < self.near.len() ==> #[trigger] self.halves[i].0
                != #[trigger] self.near[j].0
        &&& forall|i: int|
            0 <= i < self.near.len() ==> (#[trigger] self.near[i]).2 < self.branches
                && self.near[i].2 <= self.near[i].0 && !self.is_far(self.near[i].2)
    }

    /// Whether holes lie apart from each other, in the code that is there.
    pub open spec fn is_spaced(self) -> bool {
        &&& forall|i: int|
            0 <= i < self.holes.len() ==> (#[trigger] self.holes[i]).0 + 2 <= self.bytes.len()
        &&& forall|i: int|
            0 <= i < self.halves.len() ==> (#[trigger] self.halves[i]).0 < self.bytes.len()
        &&& forall|i: int|
            0 <= i < self.near.len() ==> (#[trigger] self.near[i]).0 < self.bytes.len()
        &&& self.are_spaced(0, 0, 0)
    }

    /// Whether holes lie apart, from some of them on.
    #[verifier::opaque]
    pub open spec fn are_spaced(self, holes: int, near: int, halves: int) -> bool {
        &&& forall|i: int, j: int|
            holes <= i < j < self.holes.len() ==> (#[trigger] self.holes[i]).0 + 2 <= (
            #[trigger] self.holes[j]).0
        &&& forall|i: int, j: int|
            halves <= i < j < self.halves.len() ==> (#[trigger] self.halves[i]).0 < (
            #[trigger] self.halves[j]).0
        &&& forall|i: int, j: int|
            near <= i < j < self.near.len() ==> (#[trigger] self.near[i]).0 < (
            #[trigger] self.near[j]).0
        &&& forall|i: int, j: int|
            holes <= i < self.holes.len() && halves <= j < self.halves.len() ==> self.apart(
                #[trigger] self.holes[i].0,
                #[trigger] self.halves[j].0,
            )
        &&& forall|i: int, j: int|
            holes <= i < self.holes.len() && near <= j < self.near.len() ==> self.apart(
                #[trigger] self.holes[i].0,
                #[trigger] self.near[j].0,
            )
        &&& forall|i: int, j: int|
            halves <= i < self.halves.len() && near <= j < self.near.len()
                ==> #[trigger] self.halves[i].0 != #[trigger] self.near[j].0
    }

    /// Whether a byte lies outside a two-byte hole.
    pub open spec fn apart(self, hole: nat, byte: nat) -> bool {
        byte < hole || byte >= hole + 2
    }

    /// Whether filled-in code says what the labels turned out to be: each
    /// hole is its label's address, each half the half of one, and each
    /// branch that reaches goes to its label.
    pub open spec fn resolved(self, code: Seq<u8>) -> bool {
        &&& code.len() == self.bytes.len()
        &&& forall|i: int|
            0 <= i < self.holes.len() ==> code[(#[trigger] self.holes[i]).0 as int] == low(
                self.target(self.holes[i].1)->0,
            ) && code[self.holes[i].0 as int + 1] == high(self.target(self.holes[i].1)->0)
        &&& forall|i: int|
            0 <= i < self.halves.len() ==> code[(#[trigger] self.halves[i]).0 as int] == (
            if self.halves[i].2 {
                high(self.target(self.halves[i].1)->0)
            } else {
                low(self.target(self.halves[i].1)->0)
            })
        &&& forall|i: int|
            0 <= i < self.near.len() && self.reaches((#[trigger] self.near[i]).0, self.near[i].1)
                ==> code[self.near[i].0 as int] == (self.displacement(
                self.near[i].0,
                self.near[i].1,
            ) % 256) as u8
    }

    /// The code with every hole filled.
    pub open spec fn finished(self) -> Seq<u8> {
        self.with_near(self.near.len() as int)
    }

    /// The branches whose target turned out to be out of reach.
    pub open spec fn short(self) -> Seq<nat> {
        self.overflowed(self.near.len() as int)
    }
}

/// Filling the holes of code leaves every one of them saying what its label
/// turned out to be, whatever was filled after it.
pub proof fn filling_resolves(listing: Listing)
    requires
        listing.is_spaced(),
        listing.closes(),
    ensures
        listing.resolved(listing.finished()),
{
    near_resolve(listing, listing.near.len() as int);
}

proof fn holes_resolve(listing: Listing, count: int)
    requires
        listing.is_spaced(),
        listing.closes(),
        0 <= count <= listing.holes.len(),
    ensures
        listing.with_holes(count).len() == listing.bytes.len(),
        forall|i: int|
            0 <= i < count ==> listing.with_holes(count)[(#[trigger] listing.holes[i]).0 as int]
                == low(listing.target(listing.holes[i].1)->0) && listing.with_holes(
                count,
            )[listing.holes[i].0 as int + 1] == high(listing.target(listing.holes[i].1)->0),
    decreases count,
{
    reveal(Listing::are_spaced);
    if count > 0 {
        holes_resolve(listing, count - 1);
        let last = listing.holes[count - 1];
        assert forall|i: int| 0 <= i < count implies listing.with_holes(count)[(
        #[trigger] listing.holes[i]).0 as int] == low(listing.target(listing.holes[i].1)->0)
            && listing.with_holes(count)[listing.holes[i].0 as int + 1] == high(
            listing.target(listing.holes[i].1)->0,
        ) by {
            if i < count - 1 {
                assert(listing.holes[i].0 + 2 <= last.0);
            }
        }
    }
}

proof fn halves_resolve(listing: Listing, count: int)
    requires
        listing.is_spaced(),
        listing.closes(),
        0 <= count <= listing.halves.len(),
    ensures
        listing.with_halves(count).len() == listing.bytes.len(),
        forall|i: int|
            0 <= i < listing.holes.len() ==> listing.with_halves(count)[(
            #[trigger] listing.holes[i]).0 as int] == low(listing.target(listing.holes[i].1)->0)
                && listing.with_halves(count)[listing.holes[i].0 as int + 1] == high(
                listing.target(listing.holes[i].1)->0,
            ),
        forall|i: int|
            0 <= i < count ==> listing.with_halves(count)[(#[trigger] listing.halves[i]).0 as int]
                == (if listing.halves[i].2 {
                high(listing.target(listing.halves[i].1)->0)
            } else {
                low(listing.target(listing.halves[i].1)->0)
            }),
    decreases count,
{
    reveal(Listing::are_spaced);
    if count > 0 {
        halves_resolve(listing, count - 1);
        let last = listing.halves[count - 1];
        assert forall|i: int| 0 <= i < listing.holes.len() implies listing.with_halves(count)[(
        #[trigger] listing.holes[i]).0 as int] == low(listing.target(listing.holes[i].1)->0)
            && listing.with_halves(count)[listing.holes[i].0 as int + 1] == high(
            listing.target(listing.holes[i].1)->0,
        ) by {
            assert(listing.apart(listing.holes[i].0, listing.halves[count - 1].0));
        }
    } else {
        holes_resolve(listing, listing.holes.len() as int);
    }
}

proof fn near_resolve(listing: Listing, count: int)
    requires
        listing.is_spaced(),
        listing.closes(),
        0 <= count <= listing.near.len(),
    ensures
        listing.with_near(count).len() == listing.bytes.len(),
        forall|i: int|
            0 <= i < listing.holes.len() ==> listing.with_near(count)[(
            #[trigger] listing.holes[i]).0 as int] == low(listing.target(listing.holes[i].1)->0)
                && listing.with_near(count)[listing.holes[i].0 as int + 1] == high(
                listing.target(listing.holes[i].1)->0,
            ),
        forall|i: int|
            0 <= i < listing.halves.len() ==> listing.with_near(count)[(
            #[trigger] listing.halves[i]).0 as int] == (if listing.halves[i].2 {
                high(listing.target(listing.halves[i].1)->0)
            } else {
                low(listing.target(listing.halves[i].1)->0)
            }),
        forall|i: int|
            0 <= i < count && listing.reaches((#[trigger] listing.near[i]).0, listing.near[i].1)
                ==> listing.with_near(count)[listing.near[i].0 as int] == (listing.displacement(
                listing.near[i].0,
                listing.near[i].1,
            ) % 256) as u8,
    decreases count,
{
    reveal(Listing::are_spaced);
    if count > 0 {
        near_resolve(listing, count - 1);
        let last = listing.near[count - 1];
        assert forall|i: int| 0 <= i < listing.holes.len() implies listing.with_near(count)[(
        #[trigger] listing.holes[i]).0 as int] == low(listing.target(listing.holes[i].1)->0)
            && listing.with_near(count)[listing.holes[i].0 as int + 1] == high(
            listing.target(listing.holes[i].1)->0,
        ) by {
            assert(listing.apart(listing.holes[i].0, listing.near[count - 1].0));
        }
    } else {
        halves_resolve(listing, listing.halves.len() as int);
    }
}

#[derive(Debug)]
pub struct Assembler {
    bytes: Vec<u8>,
    labels: Vec<Option<usize>>,
    holes: Vec<(usize, Label)>,
    near: Vec<(usize, Label, usize)>,
    halves: Vec<(usize, Label, bool)>,
    far: Vec<bool>,
    branches: usize,
    origin: u16,
    failed: bool,
}

impl View for Assembler {
    type V = Listing;

    closed spec fn view(&self) -> Listing {
        Listing {
            bytes: self.bytes@,
            labels: self.labels@.map_values(
                |at: Option<usize>|
                    match at {
                        Some(at) => Some(at as nat),
                        None => None,
                    },
            ),
            holes: self.holes@.map_values(|hole: (usize, Label)| (hole.0 as nat, hole.1)),
            near: self.near@.map_values(
                |hole: (usize, Label, usize)| (hole.0 as nat, hole.1, hole.2 as nat),
            ),
            halves: self.halves@.map_values(
                |hole: (usize, Label, bool)| (hole.0 as nat, hole.1, hole.2),
            ),
            far: self.far@,
            branches: self.branches as nat,
            origin: self.origin,
            failed: self.failed,
        }
    }
}

impl Assembler {
    pub fn new(origin: u16, far: Vec<bool>) -> (assembler: Self)
        ensures
            assembler@ == Listing::start(origin, far@),
            assembler@.tidy(),
    {
        let assembler = Assembler {
            bytes: Vec::new(),
            labels: Vec::new(),
            holes: Vec::new(),
            near: Vec::new(),
            halves: Vec::new(),
            far,
            branches: 0,
            origin,
            failed: false,
        };
        assert(assembler@ =~= Listing::start(origin, far@));
        assembler
    }

    pub fn label(&mut self) -> (label: Label)
        requires
            old(self)@.tidy(),
        ensures
            final(self)@ == old(self)@.label(),
            label == old(self)@.next(),
            label.0 == old(self)@.labels.len(),
            final(self)@.tidy(),
    {
        let label = Label(self.labels.len());
        self.labels.push(None);
        assert(self@ =~= old(self)@.label());
        label
    }

    pub fn bind(&mut self, label: Label)
        requires
            old(self)@.tidy(),
            label.0 < old(self)@.labels.len(),
        ensures
            final(self)@ == old(self)@.bind(label),
            final(self)@.tidy(),
    {
        self.labels.set(label.0, Some(self.bytes.len()));
        assert(self@ =~= old(self)@.bind(label));
    }

    pub fn fail(&mut self)
        requires
            old(self)@.tidy(),
        ensures
            final(self)@ == old(self)@.fail(),
            final(self)@.tidy(),
    {
        self.failed = true;
        assert(self@ =~= old(self)@.fail());
    }

    pub fn failed(&self) -> (failed: bool)
        ensures
            failed == self@.failed,
    {
        self.failed
    }

    fn emit(&mut self, code: &[u8])
        requires
            old(self)@.tidy(),
        ensures
            final(self)@ == old(self)@.emit(code@),
            final(self)@.tidy(),
    {
        self.bytes.extend_from_slice(code);
        assert(self.bytes@ =~= old(self).bytes@ + code@);
        assert(self@ =~= old(self)@.emit(code@));
    }

    fn one(&mut self, opcode: u8)
        requires
            old(self)@.tidy(),
        ensures
            final(self)@ == old(self)@.emit(seq![opcode]),
            final(self)@.tidy(),
    {
        let code: [u8; 1] = [opcode];
        assert(code@ =~= seq![opcode]);
        self.emit(&code);
    }

    fn two(&mut self, opcode: u8, operand: u8)
        requires
            old(self)@.tidy(),
        ensures
            final(self)@ == old(self)@.emit(seq![opcode, operand]),
            final(self)@.tidy(),
    {
        let code: [u8; 2] = [opcode, operand];
        assert(code@ =~= seq![opcode, operand]);
        self.emit(&code);
    }

    fn hole(&mut self, label: Label)
        requires
            old(self)@.tidy(),
        ensures
            final(self)@ == old(self)@.hole(label),
            final(self)@.tidy(),
    {
        let at: usize = self.bytes.len();
        self.two(0, 0);
        self.holes.push((at, label));
        assert(self@ =~= old(self)@.hole(label));
    }

    /// Half of a label's address, as an immediate.
    pub fn lda_imm_half(&mut self, label: Label, high: bool)
        requires
            old(self)@.tidy(),
        ensures
            final(self)@ == old(self)@.lda_imm_half(label, high),
            final(self)@.tidy(),
    {
        self.one(0xA9);
        let at: usize = self.bytes.len();
        self.one(0);
        self.halves.push((at, label, high));
        assert(self@ =~= old(self)@.lda_imm_half(label, high));
    }

    /// A literal word, for data the target lays down itself.
    pub fn word(&mut self, value: u16)
        requires
            old(self)@.tidy(),
        ensures
            final(self)@ == old(self)@.word(value),
            final(self)@.tidy(),
    {
        self.two((value % 256) as u8, (value / 256) as u8);
    }

    pub fn jsr(&mut self, label: Label)
        requires
            old(self)@.tidy(),
        ensures
            final(self)@ == old(self)@.jsr(label),
            final(self)@.tidy(),
    {
        self.one(0x20);
        self.hole(label);
    }

    pub fn jmp(&mut self, label: Label)
        requires
            old(self)@.tidy(),
        ensures
            final(self)@ == old(self)@.jmp(label),
            final(self)@.tidy(),
    {
        self.one(0x4C);
        self.hole(label);
    }

    /// A call to a fixed address, such as one of the simulator's hooks.
    pub fn jsr_abs(&mut self, at: u16)
        requires
            old(self)@.tidy(),
        ensures
            final(self)@ == old(self)@.jsr_abs(at),
            final(self)@.tidy(),
    {
        self.one(0x20);
        self.word(at);
        assert(self@ =~= old(self)@.jsr_abs(at));
    }

    pub fn jmp_abs(&mut self, at: u16)
        requires
            old(self)@.tidy(),
        ensures
            final(self)@ == old(self)@.jmp_abs(at),
            final(self)@.tidy(),
    {
        self.one(0x4C);
        self.word(at);
        assert(self@ =~= old(self)@.jmp_abs(at));
    }

    pub fn branch(&mut self, cc: Cc, label: Label)
        requires
            old(self)@.tidy(),
        ensures
            final(self)@ == old(self)@.branch(cc, label),
            final(self)@.tidy(),
    {
        let branch: usize = self.branches;
        let far = branch < self.far.len() && self.far[branch];
        if far {
            self.two(cc.inverse(), 3);
            self.jmp(label);
        } else {
            self.one(cc.taken());
            let at: usize = self.bytes.len();
            self.one(0);
            self.near.push((at, label, branch));
        }
        assert(branch < self.bytes.len());
        self.branches = branch + 1;
        assert(self@ =~= old(self)@.branch(cc, label));
    }

    pub fn lda_imm(&mut self, value: u8)
        requires
            old(self)@.tidy(),
        ensures
            final(self)@ == old(self)@.lda_imm(value),
            final(self)@.tidy(),
    {
        self.two(0xA9, value);
    }

    pub fn lda_zp(&mut self, at: u8)
        requires
            old(self)@.tidy(),
        ensures
            final(self)@ == old(self)@.lda_zp(at),
            final(self)@.tidy(),
    {
        self.two(0xA5, at);
    }

    pub fn sta_zp(&mut self, at: u8)
        requires
            old(self)@.tidy(),
        ensures
            final(self)@ == old(self)@.sta_zp(at),
            final(self)@.tidy(),
    {
        self.two(0x85, at);
    }

    /// `a = [pair + y]`, and its mirror: the only way to reach a computed
    /// address, since the machine has no sixteen-bit register.
    pub fn lda_ind_y(&mut self, pair: u8)
        requires
            old(self)@.tidy(),
        ensures
            final(self)@ == old(self)@.lda_ind_y(pair),
            final(self)@.tidy(),
    {
        self.two(0xB1, pair);
    }

    pub fn sta_ind_y(&mut self, pair: u8)
        requires
            old(self)@.tidy(),
        ensures
            final(self)@ == old(self)@.sta_ind_y(pair),
            final(self)@.tidy(),
    {
        self.two(0x91, pair);
    }

    pub fn ldx_imm(&mut self, value: u8)
        requires
            old(self)@.tidy(),
        ensures
            final(self)@ == old(self)@.ldx_imm(value),
            final(self)@.tidy(),
    {
        self.two(0xA2, value);
    }

    pub fn ldx_zp(&mut self, at: u8)
        requires
            old(self)@.tidy(),
        ensures
            final(self)@ == old(self)@.ldx_zp(at),
            final(self)@.tidy(),
    {
        self.two(0xA6, at);
    }

    pub fn ldy_imm(&mut self, value: u8)
        requires
            old(self)@.tidy(),
        ensures
            final(self)@ == old(self)@.ldy_imm(value),
            final(self)@.tidy(),
    {
        self.two(0xA0, value);
    }

    pub fn adc_zp(&mut self, at: u8)
        requires
            old(self)@.tidy(),
        ensures
            final(self)@ == old(self)@.adc_zp(at),
            final(self)@.tidy(),
    {
        self.two(0x65, at);
    }

    pub fn adc_imm(&mut self, value: u8)
        requires
            old(self)@.tidy(),
        ensures
            final(self)@ == old(self)@.adc_imm(value),
            final(self)@.tidy(),
    {
        self.two(0x69, value);
    }

    pub fn sbc_zp(&mut self, at: u8)
        requires
            old(self)@.tidy(),
        ensures
            final(self)@ == old(self)@.sbc_zp(at),
            final(self)@.tidy(),
    {
        self.two(0xE5, at);
    }

    pub fn sbc_imm(&mut self, value: u8)
        requires
            old(self)@.tidy(),
        ensures
            final(self)@ == old(self)@.sbc_imm(value),
            final(self)@.tidy(),
    {
        self.two(0xE9, value);
    }

    pub fn and_imm(&mut self, value: u8)
        requires
            old(self)@.tidy(),
        ensures
            final(self)@ == old(self)@.and_imm(value),
            final(self)@.tidy(),
    {
        self.two(0x29, value);
    }

    pub fn cmp_imm(&mut self, value: u8)
        requires
            old(self)@.tidy(),
        ensures
            final(self)@ == old(self)@.cmp_imm(value),
            final(self)@.tidy(),
    {
        self.two(0xC9, value);
    }

    pub fn inc_zp(&mut self, at: u8)
        requires
            old(self)@.tidy(),
        ensures
            final(self)@ == old(self)@.inc_zp(at),
            final(self)@.tidy(),
    {
        self.two(0xE6, at);
    }

    pub fn dec_zp(&mut self, at: u8)
        requires
            old(self)@.tidy(),
        ensures
            final(self)@ == old(self)@.dec_zp(at),
            final(self)@.tidy(),
    {
        self.two(0xC6, at);
    }

    pub fn cmp_zp(&mut self, at: u8)
        requires
            old(self)@.tidy(),
        ensures
            final(self)@ == old(self)@.cmp_zp(at),
            final(self)@.tidy(),
    {
        self.two(0xC5, at);
    }

    pub fn ora_zp(&mut self, at: u8)
        requires
            old(self)@.tidy(),
        ensures
            final(self)@ == old(self)@.ora_zp(at),
            final(self)@.tidy(),
    {
        self.two(0x05, at);
    }

    pub fn iny(&mut self)
        requires
            old(self)@.tidy(),
        ensures
            final(self)@ == old(self)@.iny(),
            final(self)@.tidy(),
    {
        self.one(0xC8);
    }

    pub fn txs(&mut self)
        requires
            old(self)@.tidy(),
        ensures
            final(self)@ == old(self)@.txs(),
            final(self)@.tidy(),
    {
        self.one(0x9A);
    }

    pub fn clc(&mut self)
        requires
            old(self)@.tidy(),
        ensures
            final(self)@ == old(self)@.clc(),
            final(self)@.tidy(),
    {
        self.one(0x18);
    }

    pub fn sec(&mut self)
        requires
            old(self)@.tidy(),
        ensures
            final(self)@ == old(self)@.sec(),
            final(self)@.tidy(),
    {
        self.one(0x38);
    }

    pub fn rts(&mut self)
        requires
            old(self)@.tidy(),
        ensures
            final(self)@ == old(self)@.rts(),
            final(self)@.tidy(),
    {
        self.one(0x60);
    }

    /// The address of a label, where sixteen bits hold it.
    fn landing(&self, label: Label) -> (at: Option<u16>)
        requires
            self@.is_marked(),
        ensures
            at is Some <==> self@.lands(label),
            at matches Some(found) ==> self@.target(label) == Some(found as nat),
    {
        if label.0 >= self.labels.len() {
            return None;
        }
        assert(self@.labels.len() == self.labels@.len());
        assert(self@.labels[label.0 as int] matches Some(at) ==> at <= self@.bytes.len());
        match self.labels[label.0] {
            Some(at) => if at <= (0xFFFF - self.origin) as usize {
                Some(self.origin + at as u16)
            } else {
                None
            },
            None => None,
        }
    }

    fn fill_holes(&self, code: &mut Vec<u8>) -> (filled: bool)
        requires
            self@.is_marked(),
            old(code)@ == self@.bytes,
        ensures
            filled <==> forall|i: int|
                0 <= i < self@.holes.len() ==> (#[trigger] self@.holes[i]).0 + 1
                    < self@.bytes.len() && self@.lands(self@.holes[i].1),
            filled ==> final(code)@ == self@.with_holes(self@.holes.len() as int),
            filled ==> final(code)@.len() == self@.bytes.len(),
    {
        let mut at: usize = 0;
        while at < self.holes.len()
            invariant
                self@.is_marked(),
                at <= self.holes@.len(),
                code@.len() == self@.bytes.len(),
                code@ == self@.with_holes(at as int),
                forall|i: int|
                    0 <= i < at ==> (#[trigger] self@.holes[i]).0 + 1 < self@.bytes.len()
                        && self@.lands(self@.holes[i].1),
            decreases self.holes@.len() - at,
        {
            let (hole, label) = self.holes[at];
            assert(self@.holes[at as int] == (hole as nat, label));
            if code.len() < 2 || hole > code.len() - 2 {
                return false;
            }
            match self.landing(label) {
                Some(target) => {
                    code.set(hole, (target % 256) as u8);
                    code.set(hole + 1, (target / 256) as u8);
                },
                None => {
                    return false;
                },
            }
            at = at + 1;
        }
        true
    }

    fn fill_halves(&self, code: &mut Vec<u8>) -> (filled: bool)
        requires
            self@.is_marked(),
            old(code)@ == self@.with_holes(self@.holes.len() as int),
            old(code)@.len() == self@.bytes.len(),
        ensures
            filled <==> forall|i: int|
                0 <= i < self@.halves.len() ==> (#[trigger] self@.halves[i]).0 < self@.bytes.len()
                    && self@.lands(self@.halves[i].1),
            filled ==> final(code)@ == self@.with_halves(self@.halves.len() as int),
            filled ==> final(code)@.len() == self@.bytes.len(),
    {
        let mut at: usize = 0;
        while at < self.halves.len()
            invariant
                self@.is_marked(),
                at <= self.halves@.len(),
                code@.len() == self@.bytes.len(),
                code@ == self@.with_halves(at as int),
                forall|i: int|
                    0 <= i < at ==> (#[trigger] self@.halves[i]).0 < self@.bytes.len()
                        && self@.lands(self@.halves[i].1),
            decreases self.halves@.len() - at,
        {
            let (hole, label, upper) = self.halves[at];
            assert(self@.halves[at as int] == (hole as nat, label, upper));
            if hole >= code.len() {
                return false;
            }
            match self.landing(label) {
                Some(target) => {
                    let half: u16 = if upper {
                        target / 256
                    } else {
                        target % 256
                    };
                    code.set(hole, half as u8);
                },
                None => {
                    return false;
                },
            }
            at = at + 1;
        }
        true
    }

    fn fill_near(&self, code: &mut Vec<u8>, overflowed: &mut Vec<usize>) -> (filled: bool)
        requires
            self@.is_marked(),
            old(code)@ == self@.with_halves(self@.halves.len() as int),
            old(code)@.len() == self@.bytes.len(),
            old(overflowed)@.len() == 0,
        ensures
            filled <==> forall|i: int|
                0 <= i < self@.near.len() ==> (#[trigger] self@.near[i]).0 < self@.bytes.len()
                    && self@.lands(self@.near[i].1) && self@.origin + self@.near[i].0 + 1
                    <= 0xFFFF,
            filled ==> final(code)@ == self@.finished(),
            filled ==> final(overflowed)@.map_values(|branch: usize| branch as nat)
                == self@.short(),
    {
        let mut at: usize = 0;
        assert(overflowed@.map_values(|branch: usize| branch as nat) =~= seq![]);
        while at < self.near.len()
            invariant
                self@.is_marked(),
                at <= self.near@.len(),
                code@.len() == self@.bytes.len(),
                code@ == self@.with_near(at as int),
                overflowed@.map_values(|branch: usize| branch as nat) == self@.overflowed(
                    at as int,
                ),
                forall|i: int|
                    0 <= i < at ==> (#[trigger] self@.near[i]).0 < self@.bytes.len()
                        && self@.lands(self@.near[i].1) && self@.origin + self@.near[i].0 + 1
                        <= 0xFFFF,
            decreases self.near@.len() - at,
        {
            let (hole, label, branch) = self.near[at];
            assert(self@.near[at as int] == (hole as nat, label, branch as nat));
            if hole >= code.len() || self.origin == 0xFFFF || hole > (0xFFFE - self.origin) as usize {
                return false;
            }
            match self.landing(label) {
                Some(target) => {
                    let from: i32 = self.origin as i32 + hole as i32 + 1;
                    let away: i32 = target as i32 - from;
                    if -128 <= away && away <= 127 {
                        let byte: i32 = if away < 0 {
                            away + 256
                        } else {
                            away
                        };
                        code.set(hole, byte as u8);
                    } else {
                        let ghost before = overflowed@;
                        overflowed.push(branch);
                        assert(overflowed@.map_values(|branch: usize| branch as nat)
                            =~= before.map_values(|branch: usize| branch as nat).push(
                            branch as nat,
                        ));
                    }
                },
                None => {
                    return false;
                },
            }
            at = at + 1;
        }
        true
    }

    /// Fill every hole with the address its label ended up at, and report
    /// the branches whose target turned out to be out of reach. `None` where
    /// a label was never bound, or landed past the last address there is.
    pub fn finish(self) -> (finished: Option<(Vec<u8>, Vec<usize>)>)
        requires
            self@.tidy(),
        ensures
            finished is Some <==> self@.closes(),
            finished matches Some(done) ==> self@.resolved(done.0@),
            finished matches Some(done) ==> done.0@ == self@.finished() && done.1@.map_values(
                |branch: usize| branch as nat,
            ) == self@.short(),
    {
        let mut code: Vec<u8> = vstd::slice::slice_to_vec(self.bytes.as_slice());
        let mut overflowed: Vec<usize> = Vec::new();
        let labels: usize = self.labels.len();
        assert(self@.labels.len() == labels);
        if !self.fill_holes(&mut code) {
            return None;
        }
        if !self.fill_halves(&mut code) {
            return None;
        }
        if !self.fill_near(&mut code, &mut overflowed) {
            return None;
        }
        proof {
            reveal(Listing::are_spaced);
            filling_resolves(self@);
        }
        Some((code, overflowed))
    }
}

} // verus!
