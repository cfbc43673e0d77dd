//! The data model of the notation: note lengths, notes and groups, and their lengths in
//! 128th notes.

use crate::dsl::grammar::digits_of;
pub use crate::dsl::parser::{
    delimited_group, group, group_or_delimited_group, groups, length, ParseError,
};
use crate::dsl::writing::push_number;
use std::cmp::Ordering;
use vstd::prelude::*;
use vstd::string::StringExecFns;
use vstd::std_specs::cmp::PartialOrdSpecImpl;
use vstd::std_specs::ops::AddSpecImpl;

verus! {

/// Allows measurement in 128th notes.
pub trait KnownLength {
    /// The length in 128th notes, as a mathematical number.
    spec fn ticks(&self) -> nat;

    /// Whether the length, and every sum formed on the way to it, fits in a `u32`.
    spec fn measurable(&self) -> bool;

    fn to_128th(&self) -> (ticks: u32)
        requires
            self.measurable(),
        ensures
            ticks == self.ticks(),
    ;
}

/// The note values, ordered as they are declared: from the whole note down.
#[derive(Debug, Clone, Copy, PartialEq, Eq, Ord, Structural)]
pub enum BasicLength {
    Whole,
    Half,
    Fourth,
    Eighth,
    Sixteenth,
    ThirtySecond,
    SixtyFourth,
}

impl BasicLength {
    /// The place in the order of declaration: 0 for the whole note, 6 for the 64th.
    pub open spec fn spec_rank(self) -> u8 {
        match self {
            BasicLength::Whole => 0,
            BasicLength::Half => 1,
            BasicLength::Fourth => 2,
            BasicLength::Eighth => 3,
            BasicLength::Sixteenth => 4,
            BasicLength::ThirtySecond => 5,
            BasicLength::SixtyFourth => 6,
        }
    }

    /// The place in the order of declaration, by which basic lengths are compared.
    #[verifier::when_used_as_spec(spec_rank)]
    pub fn rank(self) -> (rank: u8)
        ensures
            rank == self.spec_rank(),
    {
        match self {
            BasicLength::Whole => 0,
            BasicLength::Half => 1,
            BasicLength::Fourth => 2,
            BasicLength::Eighth => 3,
            BasicLength::Sixteenth => 4,
            BasicLength::ThirtySecond => 5,
            BasicLength::SixtyFourth => 6,
        }
    }

    /// The length in 64th notes, the unit in which two basic lengths are added.
    pub open spec fn half_ticks(self) -> nat {
        self.ticks() / 2
    }

    /// The basic length that lasts `n` 64th notes, if there is one.
    pub open spec fn of_half_ticks(n: nat) -> Option<BasicLength> {
        if n == 64 {
            Some(BasicLength::Whole)
        } else if n == 32 {
            Some(BasicLength::Half)
        } else if n == 16 {
            Some(BasicLength::Fourth)
        } else if n == 8 {
            Some(BasicLength::Eighth)
        } else if n == 4 {
            Some(BasicLength::Sixteenth)
        } else if n == 2 {
            Some(BasicLength::ThirtySecond)
        } else if n == 1 {
            Some(BasicLength::SixtyFourth)
        } else {
            None
        }
    }

    /// The longest basic length that is strictly shorter than `total` 64th notes;
    /// the shortest one where none is.
    pub open spec fn longest_below(total: nat) -> BasicLength {
        if total > 64 {
            BasicLength::Whole
        } else if total > 32 {
            BasicLength::Half
        } else if total > 16 {
            BasicLength::Fourth
        } else if total > 8 {
            BasicLength::Eighth
        } else if total > 4 {
            BasicLength::Sixteenth
        } else if total > 2 {
            BasicLength::ThirtySecond
        } else {
            BasicLength::SixtyFourth
        }
    }

    /// The sum of two basic lengths: the next longer basic length where a length other
    /// than a whole note is doubled, and otherwise a tie of the longest basic length
    /// below the total with what is left of the total.
    pub open spec fn sum(self, rhs: BasicLength) -> Length {
        let total = self.half_ticks() + rhs.half_ticks();
        if self == rhs && self != BasicLength::Whole {
            Length::Simple(ModdedLength::Plain(Self::of_half_ticks(total).unwrap()))
        } else {
            let first = Self::longest_below(total);
            let rest = (total - first.half_ticks()) as nat;
            Length::Tied(
                ModdedLength::Plain(first),
                ModdedLength::Plain(Self::of_half_ticks(rest).unwrap()),
            )
        }
    }

    /// The length in 64th notes.
    fn to_64th(self) -> (n: u16)
        ensures
            n == self.half_ticks(),
    {
        match self {
            BasicLength::Whole => 64,
            BasicLength::Half => 32,
            BasicLength::Fourth => 16,
            BasicLength::Eighth => 8,
            BasicLength::Sixteenth => 4,
            BasicLength::ThirtySecond => 2,
            BasicLength::SixtyFourth => 1,
        }
    }

    /// The basic length that lasts `n` 64th notes. Fails where `n` is not the length
    /// of any basic length.
    pub fn from_num(n: u16) -> (r: Result<Self, String>)
        ensures
            match Self::of_half_ticks(n as nat) {
                Some(length) => r == Ok::<Self, String>(length),
                None => r matches Err(message) && message@ == digits_of(n as nat)
                    + " is not a num BasicLength can be constructed from"@,
            },
    {
        match n {
            1 => Ok(BasicLength::SixtyFourth),
            2 => Ok(BasicLength::ThirtySecond),
            4 => Ok(BasicLength::Sixteenth),
            8 => Ok(BasicLength::Eighth),
            16 => Ok(BasicLength::Fourth),
            32 => Ok(BasicLength::Half),
            64 => Ok(BasicLength::Whole),
            e => {
                let mut message = String::new();
                push_number(&mut message, e);
                message.append(" is not a num BasicLength can be constructed from");
                Err(message)
            },
        }
    }

    /// `longest_below(total)` is shorter than `total`, and no basic length between the
    /// two is: it is the longest basic length below `total`.
    pub proof fn lemma_longest_below(total: nat, other: BasicLength)
        requires
            total > 1,
        ensures
            Self::longest_below(total).half_ticks() < total,
            other.half_ticks() < total ==> other.half_ticks() <= Self::longest_below(
                total,
            ).half_ticks(),
    {
    }

    /// Adding two basic lengths adds their tick counts.
    pub proof fn lemma_sum_ticks(a: BasicLength, b: BasicLength)
        ensures
            a.sum(b).ticks() == a.ticks() + b.ticks(),
    {
    }

    /// The sum of two different basic lengths ties the longer to the shorter, whatever
    /// their order; a sum is never a triplet.
    pub proof fn lemma_sum_shape(a: BasicLength, b: BasicLength)
        ensures
            a.sum(b) == b.sum(a),
            !(a.sum(b) is Triplet),
            a.ticks() > b.ticks() ==> a.sum(b) == Length::Tied(
                ModdedLength::Plain(a),
                ModdedLength::Plain(b),
            ),
    {
    }
}

impl core::ops::Add<BasicLength> for BasicLength {
    type Output = Length;

    fn add(self, rhs: BasicLength) -> (sum: Length) {
        let n1: u16 = self.to_64th();
        let n2: u16 = rhs.to_64th();
        let total: u16 = n1 + n2;
        if self == rhs && self != BasicLength::Whole {
            Length::Simple(ModdedLength::Plain(BasicLength::from_num(total).unwrap()))
        } else {
            let first = if total > 64 {
                BasicLength::Whole
            } else if total > 32 {
                BasicLength::Half
            } else if total > 16 {
                BasicLength::Fourth
            } else if total > 8 {
                BasicLength::Eighth
            } else if total > 4 {
                BasicLength::Sixteenth
            } else {
                BasicLength::ThirtySecond
            };
            let rest: u16 = total - first.to_64th();
            Length::Tied(
                ModdedLength::Plain(first),
                ModdedLength::Plain(BasicLength::from_num(rest).unwrap()),
            )
        }
    }
}

impl PartialOrd for BasicLength {
    fn partial_cmp(&self, other: &Self) -> (order: Option<Ordering>) {
        let mine: u8 = self.rank();
        let theirs: u8 = other.rank();
        if mine < theirs {
            Some(Ordering::Less)
        } else if mine > theirs {
            Some(Ordering::Greater)
        } else {
            Some(Ordering::Equal)
        }
    }
}

impl PartialOrdSpecImpl for BasicLength {
    open spec fn obeys_partial_cmp_spec() -> bool {
        true
    }

    /// Basic lengths are ordered by rank, so that a longer note is less than a shorter one.
    open spec fn partial_cmp_spec(&self, other: &Self) -> Option<Ordering> {
        if self.rank() < other.rank() {
            Some(Ordering::Less)
        } else if self.rank() > other.rank() {
            Some(Ordering::Greater)
        } else {
            Some(Ordering::Equal)
        }
    }
}

impl AddSpecImpl<BasicLength> for BasicLength {
    open spec fn obeys_add_spec() -> bool {
        true
    }

    open spec fn add_req(self, rhs: BasicLength) -> bool {
        true
    }

    open spec fn add_spec(self, rhs: BasicLength) -> Length {
        self.sum(rhs)
    }
}

impl KnownLength for BasicLength {
    open spec fn ticks(&self) -> nat {
        match self {
            BasicLength::Whole => 128,
            BasicLength::Half => 64,
            BasicLength::Fourth => 32,
            BasicLength::Eighth => 16,
            BasicLength::Sixteenth => 8,
            BasicLength::ThirtySecond => 4,
            BasicLength::SixtyFourth => 2,
        }
    }

    open spec fn measurable(&self) -> bool {
        true
    }

    fn to_128th(&self) -> (ticks: u32) {
        match self {
            BasicLength::Whole => 128,
            BasicLength::Half => 64,
            BasicLength::Fourth => 32,
            BasicLength::Eighth => 16,
            BasicLength::Sixteenth => 8,
            BasicLength::ThirtySecond => 4,
            BasicLength::SixtyFourth => 2,
        }
    }
}

#[derive(Debug, Clone, Copy, PartialEq, Eq, Structural)]
pub enum ModdedLength {
    Plain(BasicLength),
    Dotted(BasicLength),
}

impl KnownLength for ModdedLength {
    open spec fn ticks(&self) -> nat {
        match self {
            ModdedLength::Plain(bl) => bl.ticks(),
            ModdedLength::Dotted(bl) => bl.ticks() + bl.ticks() / 2,
        }
    }

    open spec fn measurable(&self) -> bool {
        true
    }

    fn to_128th(&self) -> (ticks: u32) {
        match self {
            ModdedLength::Plain(bl) => bl.to_128th(),
            ModdedLength::Dotted(bl) => {
                let l: u32 = bl.to_128th();
                l + l / 2
            },
        }
    }
}

#[derive(Debug, Clone, Copy, PartialEq, Eq, Structural)]
pub enum Length {
    Simple(ModdedLength),
    Tied(ModdedLength, ModdedLength),
    Triplet(ModdedLength),
}

impl KnownLength for Length {
    open spec fn ticks(&self) -> nat {
        match self {
            Length::Simple(ml) => ml.ticks(),
            Length::Tied(ml1, ml2) => ml1.ticks() + ml2.ticks(),
            Length::Triplet(ml) => ml.ticks() * 2 / 3,
        }
    }

    open spec fn measurable(&self) -> bool {
        true
    }

    fn to_128th(&self) -> (ticks: u32) {
        match self {
            Length::Simple(ml) => ml.to_128th(),
            Length::Tied(ml1, ml2) => ml1.to_128th() + ml2.to_128th(),
            Length::Triplet(ml) => ml.to_128th() * 2 / 3,
        }
    }
}

impl Length {
    /// A dot adds half of the length: a dotted note lasts three halves of the plain one.
    pub proof fn lemma_dotted_ticks(length: BasicLength)
        ensures
            ModdedLength::Dotted(length).ticks() == ModdedLength::Plain(length).ticks() * 3 / 2,
    {
    }

    /// A tie lasts as long as its two parts together.
    pub proof fn lemma_tied_ticks(first: ModdedLength, second: ModdedLength)
        ensures
            Length::Tied(first, second).ticks() == first.ticks() + second.ticks(),
    {
    }

    /// A note of a triplet lasts two thirds of the plain length, rounded down.
    pub proof fn lemma_triplet_ticks(length: ModdedLength)
        ensures
            Length::Triplet(length).ticks() == length.ticks() * 2 / 3,
    {
    }

    /// Every length lasts at least one tick and at most three whole notes.
    pub proof fn lemma_ticks_bounds(length: Length)
        ensures
            1 <= length.ticks() <= 384,
    {
    }

    /// The length of a note of the value `length`.
    pub fn plain(length: BasicLength) -> (plain: Length)
        ensures
            plain == Length::Simple(ModdedLength::Plain(length)),
    {
        Length::Simple(ModdedLength::Plain(length))
    }

    /// The length of one note of a triplet of the value `length`.
    pub fn triplet(length: BasicLength) -> (triplet: Length)
        ensures
            triplet == Length::Triplet(ModdedLength::Plain(length)),
    {
        Length::Triplet(ModdedLength::Plain(length))
    }

    /// The length of one note of a triplet of dotted notes of the value `length`.
    pub fn dotted_triplet(length: BasicLength) -> (triplet: Length)
        ensures
            triplet == Length::Triplet(ModdedLength::Dotted(length)),
    {
        Length::Triplet(ModdedLength::Dotted(length))
    }
}

#[derive(Debug, Clone, Copy, PartialEq, Eq, Structural)]
pub enum Note {
    Hit,
    Rest,
}

/// How often a group is played in a row.
#[derive(Debug, Clone, Copy, PartialEq, Eq, Structural)]
pub struct Times(pub u16);

#[derive(Debug, PartialEq, Eq)]
pub enum GroupOrNote {
    SingleGroup(Group),
    SingleNote(Note),
}

/// Notes and nested groups in the order in which they are played. `length` is the
/// length of each note that stands in the group itself.
#[derive(Debug, PartialEq, Eq)]
pub struct Group {
    pub notes: Vec<GroupOrNote>,
    pub length: Length,
    pub times: Times,
}

/// What a `GroupOrNote` holds.
pub enum Node {
    Group(Pattern),
    Note(Note),
}

/// What a `Group` holds: the mathematical tree that contracts speak of.
pub struct Pattern {
    pub notes: Seq<Node>,
    pub length: Length,
    pub times: nat,
}

impl Node {
    /// The ticks that this child adds to a group whose own notes last `unit` ticks.
    pub open spec fn ticks(self, unit: nat) -> nat
        decreases self,
    {
        match self {
            Node::Group(group) => group.ticks(),
            Node::Note(_) => unit,
        }
    }

    /// Whether a nested group is measurable; a note always is.
    pub open spec fn measurable(self) -> bool
        decreases self,
    {
        match self {
            Node::Group(group) => group.measurable(),
            Node::Note(_) => true,
        }
    }

    /// Whether a nested group is well formed; a note always is.
    pub open spec fn well_formed(self) -> bool
        decreases self,
    {
        match self {
            Node::Group(group) => group.well_formed(),
            Node::Note(_) => true,
        }
    }
}

impl Pattern {
    /// The ticks of the first `n` children, played once.
    pub open spec fn prefix_ticks(self, n: nat) -> nat
        decreases self, n,
    {
        if n == 0 || n > self.notes.len() {
            0
        } else {
            self.prefix_ticks((n - 1) as nat) + self.notes[n - 1].ticks(self.length.ticks())
        }
    }

    /// The ticks of all children, times the number of repetitions.
    pub open spec fn ticks(self) -> nat
        decreases self, self.notes.len() + 1,
    {
        self.prefix_ticks(self.notes.len()) * self.times
    }

    /// Whether the tick count fits in a `u32`, together with the sum of the children
    /// before it is multiplied, and the same holds of every nested group.
    pub open spec fn measurable(self) -> bool
        decreases self,
    {
        &&& self.prefix_ticks(self.notes.len()) <= u32::MAX
        &&& self.ticks() <= u32::MAX
        &&& forall|i: int| 0 <= i < self.notes.len() ==> (#[trigger] self.notes[i]).measurable()
    }

    /// A group has at least one child and is played at least once, and so is every
    /// nested group.
    pub open spec fn well_formed(self) -> bool
        decreases self,
    {
        &&& self.notes.len() > 0
        &&& self.times >= 1
        &&& forall|i: int| 0 <= i < self.notes.len() ==> (#[trigger] self.notes[i]).well_formed()
    }

    /// Every child is a note: the group holds no nested group.
    pub open spec fn flat(self) -> bool {
        forall|i: int| 0 <= i < self.notes.len() ==> (#[trigger] self.notes[i]) is Note
    }

    /// The notes of a group without nested groups last as long as one of them, times
    /// their number.
    pub proof fn lemma_flat_prefix_ticks(self, n: nat)
        requires
            self.flat(),
            n <= self.notes.len(),
        ensures
            self.prefix_ticks(n) == n * self.length.ticks(),
        decreases n,
    {
        let unit = self.length.ticks();
        if n > 0 {
            self.lemma_flat_prefix_ticks((n - 1) as nat);
            assert(self.notes[n - 1] is Note);
            assert(self.prefix_ticks(n) == self.prefix_ticks((n - 1) as nat) + self.notes[n
                - 1].ticks(unit));
            assert(n * unit == (n - 1) * unit + unit) by (nonlinear_arith);
        } else {
            assert(self.prefix_ticks(n) == 0);
            assert(n * unit == 0) by (nonlinear_arith)
                requires
                    n == 0,
            ;
        }
    }

    /// A group without nested groups lasts as long as one of its notes, times their
    /// number, times the number of repetitions.
    pub proof fn lemma_flat_ticks(self)
        requires
            self.flat(),
        ensures
            self.ticks() == self.notes.len() * self.length.ticks() * self.times,
    {
        self.lemma_flat_prefix_ticks(self.notes.len());
    }

    /// The first `n` children of a well-formed group last at least `n` ticks.
    pub proof fn lemma_well_formed_prefix_ticks(self, n: nat)
        requires
            self.well_formed(),
            n <= self.notes.len(),
        ensures
            self.prefix_ticks(n) >= n,
        decreases self, 0nat, n,
    {
        if n > 0 {
            self.lemma_well_formed_prefix_ticks((n - 1) as nat);
            let child = self.notes[n - 1];
            assert(child.well_formed());
            assert(self.prefix_ticks(n) == self.prefix_ticks((n - 1) as nat) + child.ticks(
                self.length.ticks(),
            ));
            match child {
                Node::Group(group) => {
                    group.lemma_well_formed_ticks();
                },
                Node::Note(_) => {
                    Length::lemma_ticks_bounds(self.length);
                },
            }
        }
    }

    /// A well-formed group lasts at least one tick.
    pub proof fn lemma_well_formed_ticks(self)
        requires
            self.well_formed(),
        ensures
            self.ticks() >= 1,
        decreases self, 1nat, 0nat,
    {
        self.lemma_well_formed_prefix_ticks(self.notes.len());
        assert(self.prefix_ticks(self.notes.len()) * self.times >= 1) by (nonlinear_arith)
            requires
                self.prefix_ticks(self.notes.len()) >= 1,
                self.times >= 1,
        ;
    }

    /// The ticks of the children grow with their number.
    pub proof fn lemma_prefix_ticks_grow(self, m: nat, n: nat)
        requires
            m <= n <= self.notes.len(),
        ensures
            self.prefix_ticks(m) <= self.prefix_ticks(n),
        decreases n,
    {
        if m < n {
            self.lemma_prefix_ticks_grow(m, (n - 1) as nat);
        }
    }
}

impl View for GroupOrNote {
    type V = Node;

    open spec fn view(&self) -> Node
        decreases self,
    {
        match self {
            GroupOrNote::SingleGroup(group) => Node::Group(group@),
            GroupOrNote::SingleNote(note) => Node::Note(*note),
        }
    }
}

impl View for Group {
    type V = Pattern;

    open spec fn view(&self) -> Pattern
        decreases self,
    {
        Pattern {
            notes: Seq::new(
                self.notes.len() as nat,
                |i: int|
                    if 0 <= i < self.notes.len() {
                        self.notes[i]@
                    } else {
                        Node::Note(Note::Rest)
                    },
            ),
            length: self.length,
            times: self.times.0 as nat,
        }
    }
}

impl Group {
    /// The view of a group holds the views of its children, one for one.
    pub proof fn lemma_view(&self)
        ensures
            self@.notes.len() == self.notes.len(),
            forall|i: int| 0 <= i < self.notes.len() ==> self@.notes[i] == self.notes[i]@,
            self@.length == self.length,
            self@.times == self.times.0,
    {
        reveal_with_fuel(<Group as View>::view, 2);
    }

    /// The length in 128th notes, or `None` where the group is not measurable.
    pub fn checked_to_128th(&self) -> (ticks: Option<u32>)
        ensures
            ticks == if self@.measurable() {
                Some(self@.ticks() as u32)
            } else {
                None
            },
        decreases self,
    {
        let mut acc: u32 = 0;
        let note_length: u32 = self.length.to_128th();
        let mut i: usize = 0;
        proof {
            self.lemma_view();
        }
        while i < self.notes.len()
            invariant
                i <= self.notes.len(),
                self@.notes.len() == self.notes.len(),
                forall|j: int| 0 <= j < self.notes.len() ==> self@.notes[j] == self.notes[j]@,
                forall|j: int| 0 <= j < i ==> (#[trigger] self@.notes[j]).measurable(),
                note_length == self@.length.ticks(),
                acc == self@.prefix_ticks(i as nat),
            decreases self.notes.len() - i,
        {
            proof {
                self@.lemma_prefix_ticks_grow((i + 1) as nat, self@.notes.len());
                assert(self@.prefix_ticks((i + 1) as nat) == self@.prefix_ticks(i as nat)
                    + self@.notes[i as int].ticks(self@.length.ticks()));
            }
            let child: u32 = match &self.notes[i] {
                GroupOrNote::SingleGroup(subgroup) => {
                    match subgroup.checked_to_128th() {
                        Some(ticks) => ticks,
                        None => {
                            assert(!self@.notes[i as int].measurable());
                            return None;
                        },
                    }
                },
                GroupOrNote::SingleNote(_) => note_length,
            };
            assert(self@.notes[i as int].measurable());
            acc = match acc.checked_add(child) {
                Some(sum) => sum,
                None => {
                    return None;
                },
            };
            i += 1;
        }
        acc.checked_mul(self.times.0 as u32)
    }

    /// A copy of the whole tree.
    pub fn deep_copy(&self) -> (copy: Group)
        ensures
            copy@ == self@,
        decreases self,
    {
        let mut notes: Vec<GroupOrNote> = Vec::new();
        let mut i: usize = 0;
        while i < self.notes.len()
            invariant
                i <= self.notes.len(),
                notes.len() == i,
                forall|j: int| 0 <= j < i ==> notes[j]@ == self.notes[j]@,
            decreases self.notes.len() - i,
        {
            let child = match &self.notes[i] {
                GroupOrNote::SingleGroup(group) => GroupOrNote::SingleGroup(group.deep_copy()),
                GroupOrNote::SingleNote(note) => GroupOrNote::SingleNote(*note),
            };
            notes.push(child);
            i += 1;
        }
        let copy = Group { notes, length: self.length, times: self.times };
        proof {
            copy.lemma_view();
            self.lemma_view();
            assert(copy@.notes =~= self@.notes);
        }
        copy
    }
}

impl KnownLength for Group {
    open spec fn ticks(&self) -> nat {
        self@.ticks()
    }

    open spec fn measurable(&self) -> bool {
        self@.measurable()
    }

    fn to_128th(&self) -> (ticks: u32)
        decreases self,
    {
        let mut acc: u32 = 0;
        let note_length: u32 = self.length.to_128th();
        let mut i: usize = 0;
        proof {
            self.lemma_view();
        }
        while i < self.notes.len()
            invariant
                i <= self.notes.len(),
                self@.measurable(),
                self@.notes.len() == self.notes.len(),
                forall|j: int| 0 <= j < self.notes.len() ==> self@.notes[j] == self.notes[j]@,
                note_length == self@.length.ticks(),
                acc == self@.prefix_ticks(i as nat),
            decreases self.notes.len() - i,
        {
            proof {
                self@.lemma_prefix_ticks_grow((i + 1) as nat, self@.notes.len());
                assert(self@.notes[i as int].measurable());
                assert(self@.prefix_ticks((i + 1) as nat) == self@.prefix_ticks(i as nat)
                    + self@.notes[i as int].ticks(self@.length.ticks()));
            }
            match &self.notes[i] {
                GroupOrNote::SingleGroup(subgroup) => {
                    acc += subgroup.to_128th();
                },
                GroupOrNote::SingleNote(_) => {
                    acc += note_length;
                },
            }
            i += 1;
        }
        acc * (self.times.0 as u32)
    }
}

impl Clone for Group {
    fn clone(&self) -> (copy: Self)
        ensures
            copy@ == self@,
    {
        self.deep_copy()
    }
}

impl Clone for GroupOrNote {
    fn clone(&self) -> (copy: Self)
        ensures
            copy@ == self@,
    {
        match self {
            GroupOrNote::SingleGroup(group) => GroupOrNote::SingleGroup(group.deep_copy()),
            GroupOrNote::SingleNote(note) => GroupOrNote::SingleNote(*note),
        }
    }
}

impl core::ops::Deref for Group {
    type Target = Vec<GroupOrNote>;

    fn deref(&self) -> (notes: &Vec<GroupOrNote>)
        ensures
            notes == &self.notes,
    {
        &self.notes
    }
}

} // verus!
