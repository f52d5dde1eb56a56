use crate::errors::ErrorCode;
use crate::helpers::htm::{
    decimal_digit, decimal_len, leading_digit, lemma_digit_shift, lemma_pow10_monotonic,
    lemma_pow10_positive, pow10, valid_trixel_id,
};
use vstd::prelude::*;

verus! {

/// The place of the first `true` in `hits`, if there is one.
pub open spec fn first_hit(hits: Seq<bool>) -> Option<int> {
    if exists|i: int| 0 <= i < hits.len() && hits[i] {
        Some(choose|i: int| 0 <= i < hits.len() && hits[i] && forall|j: int| 0 <= j < i ==> !hits[j])
    } else {
        None
    }
}

/// Which of the candidate triangles, scanned in order, is taken to hold the
/// point: the first that holds it at the narrow tolerance; where none does,
/// the first that holds it at the wide tolerance; else none.
pub open spec fn spec_select(narrow: Seq<bool>, wide: Seq<bool>) -> Option<int> {
    if first_hit(narrow) is Some {
        first_hit(narrow)
    } else {
        first_hit(wide)
    }
}

/// `found` is the place of the first `true` in `hits`.
pub open spec fn is_first_hit(hits: Seq<bool>, found: Option<int>) -> bool {
    match found {
        Some(i) => 0 <= i < hits.len() && hits[i] && forall|j: int| 0 <= j < i ==> !hits[j],
        None => forall|j: int| 0 <= j < hits.len() ==> !hits[j],
    }
}

/// Only one place is that of the first `true`.
pub proof fn lemma_first_hit(hits: Seq<bool>, found: Option<int>)
    requires
        is_first_hit(hits, found),
    ensures
        first_hit(hits) == found,
{
    match found {
        Some(i) => {
            let c = first_hit(hits)->Some_0;
            assert(0 <= c < hits.len() && hits[c] && forall|j: int| 0 <= j < c ==> !hits[j]);
            if c < i {
                assert(!hits[c]);
            }
            if i < c {
                assert(!hits[i]);
            }
        },
        None => {},
    }
}

/// The place of the first `true` in `hits`.
fn find_first(hits: &[bool]) -> (found: Option<usize>)
    ensures
        first_hit(hits@) == match found {
            Some(i) => Some(i as int),
            None => None,
        },
        is_first_hit(
            hits@,
            match found {
                Some(i) => Some(i as int),
                None => None,
            },
        ),
{
    let mut i: usize = 0;
    while i < hits.len()
        invariant
            i <= hits@.len(),
            forall|j: int| 0 <= j < i ==> !hits@[j],
        decreases hits@.len() - i,
    {
        if hits[i] {
            proof {
                lemma_first_hit(hits@, Some(i as int));
            }
            return Some(i);
        }
        i = i + 1;
    }
    proof {
        lemma_first_hit(hits@, None);
    }
    None
}

/// Picks among candidate triangles scanned in a fixed order, given for each
/// whether it holds the point at the narrow tolerance and whether it does
/// at the wide one.
pub fn select_candidate(narrow: &[bool], wide: &[bool]) -> (found: Option<usize>)
    ensures
        spec_select(narrow@, wide@) == match found {
            Some(i) => Some(i as int),
            None => None,
        },
        match found {
            Some(i) => is_first_hit(narrow@, Some(i as int)) || (is_first_hit(narrow@, None)
                && is_first_hit(wide@, Some(i as int))),
            None => is_first_hit(narrow@, None) && is_first_hit(wide@, None),
        },
{
    match find_first(narrow) {
        Some(i) => Some(i),
        None => find_first(wide),
    }
}

/// What a descent of `level` rounds yields while no digit is lost: an
/// identifier that starts with a base trixel (1 to 8) and goes on with
/// `level` children (1 to 4).
pub open spec fn is_htm_id(id: nat, level: nat) -> bool
    decreases level,
{
    if level == 0 {
        1 <= id <= 8
    } else {
        1 <= id % 10 <= 4 && is_htm_id(id / 10, (level - 1) as nat)
    }
}

/// The identifier after one more round: ten times the one before plus the
/// child taken, cut to 64 bits.
pub open spec fn spec_descend(id: u64, child: int) -> u64 {
    ((id * 10 + child + 1) % 0x1_0000_0000_0000_0000) as u64
}

/// The deepest descent whose identifier still fits 64 bits in full.
pub const MAX_EXACT_DEPTH: u32 = 18;

/// The deepest descent that is taken on.
pub const MAX_DEPTH: u32 = 31;

/// A request to locate a point at a depth that has been accepted, before
/// the base trixel is known.
#[derive(Clone, Copy, Debug)]
pub struct HtmSearch {
    depth: u32,
}

/// A descent through the mesh towards a point: the trixel reached so far,
/// at which level, and how deep it is to go.
#[derive(Clone, Copy, Debug)]
pub struct HtmDescent {
    depth: u32,
    level: u32,
    id: u64,
    slot: usize,
}

impl HtmSearch {
    #[verifier::type_invariant]
    spec fn well_formed(&self) -> bool {
        self.depth <= MAX_DEPTH
    }

    /// The depth asked for.
    pub closed spec fn spec_depth(&self) -> u32 {
        self.depth
    }

    /// Takes on a request to locate a point `depth` levels down, unless
    /// that is deeper than 31.
    pub fn begin(depth: u32) -> (r: Result<HtmSearch, ErrorCode>)
        ensures
            depth > 31 ==> r is Err && r->Err_0 == ErrorCode::InvalidResolution,
            depth <= 31 ==> r is Ok && r->Ok_0.spec_depth() == depth,
    {
        if depth > MAX_DEPTH {
            return Err(ErrorCode::InvalidResolution);
        }
        Ok(HtmSearch { depth })
    }

    /// Enters the base trixel that holds the point, given what the tests of
    /// the eight base trixels said, in the order of their identifiers. A
    /// point that none of them holds has no place on the sphere.
    pub fn enter_base(self, narrow: &[bool; 8], wide: &[bool; 8]) -> (r: Result<
        HtmDescent,
        ErrorCode,
    >)
        ensures
            match spec_select(narrow@, wide@) {
                Some(i) => r is Ok && r->Ok_0.spec_id() == i + 1 && r->Ok_0.spec_slot() == i
                    && r->Ok_0.spec_level() == 0 && r->Ok_0.spec_depth() == self.spec_depth(),
                None => r is Err && r->Err_0 == ErrorCode::InvalidCoordinates,
            },
    {
        proof {
            use_type_invariant(&self);
        }
        match select_candidate(narrow.as_slice(), wide.as_slice()) {
            Some(i) => Ok(HtmDescent { depth: self.depth, level: 0, id: i as u64 + 1, slot: i }),
            None => Err(ErrorCode::InvalidCoordinates),
        }
    }
}

impl HtmDescent {
    #[verifier::type_invariant]
    spec fn well_formed(&self) -> bool {
        &&& self.level <= self.depth <= MAX_DEPTH
        &&& self.level == 0 ==> self.slot < 8 && self.id == self.slot + 1
        &&& self.level > 0 ==> self.slot < 4
        &&& 0 < self.level <= MAX_EXACT_DEPTH ==> self.id % 10 == self.slot + 1
        &&& self.level <= MAX_EXACT_DEPTH ==> is_htm_id(self.id as nat, self.level as nat)
    }

    /// The depth asked for.
    pub closed spec fn spec_depth(&self) -> u32 {
        self.depth
    }

    /// How many rounds of subdivision have been gone through.
    pub closed spec fn spec_level(&self) -> u32 {
        self.level
    }

    /// The identifier of the trixel reached.
    pub closed spec fn spec_id(&self) -> u64 {
        self.id
    }

    /// Which of the candidates of the last scan was entered, counted from 0.
    pub closed spec fn spec_slot(&self) -> int {
        self.slot as int
    }

    /// Whether the depth asked for has been reached.
    pub fn is_complete(&self) -> (done: bool)
        ensures
            done <==> self.spec_level() == self.spec_depth(),
            self.spec_level() <= self.spec_depth() <= 31,
    {
        proof {
            use_type_invariant(self);
        }
        self.level == self.depth
    }

    /// The identifier of the trixel reached. Down to level 18 it spells the
    /// way taken: the base trixel first, then one digit for each child.
    pub fn id(&self) -> (id: u64)
        ensures
            id == self.spec_id(),
            self.spec_level() <= 18 ==> is_htm_id(id as nat, self.spec_level() as nat),
    {
        proof {
            use_type_invariant(self);
        }
        self.id
    }

    /// Which of the candidates of the last scan was entered, counted from
    /// 0: one of eight base trixels before the first round, one of four
    /// children after it.
    pub fn slot(&self) -> (slot: usize)
        ensures
            slot == self.spec_slot(),
            slot < 8,
            self.spec_level() > 0 ==> slot < 4,
    {
        proof {
            use_type_invariant(self);
        }
        self.slot
    }

    /// Goes one round down: enters the child that holds the point, given
    /// what the tests of the four children said, in the order of their
    /// indices. A point that none of them holds has no place on the sphere.
    pub fn descend(self, narrow: &[bool; 4], wide: &[bool; 4]) -> (r: Result<
        HtmDescent,
        ErrorCode,
    >)
        requires
            self.spec_level() < self.spec_depth(),
        ensures
            match spec_select(narrow@, wide@) {
                Some(i) => r is Ok && r->Ok_0.spec_id() == spec_descend(self.spec_id(), i)
                    && r->Ok_0.spec_slot() == i && r->Ok_0.spec_level() == self.spec_level() + 1
                    && r->Ok_0.spec_depth() == self.spec_depth(),
                None => r is Err && r->Err_0 == ErrorCode::InvalidCoordinates,
            },
            r is Ok && self.spec_level() < 18 ==> r->Ok_0.spec_id() == self.spec_id() * 10
                + r->Ok_0.spec_slot() + 1,
    {
        proof {
            use_type_invariant(&self);
        }
        match select_candidate(narrow.as_slice(), wide.as_slice()) {
            Some(i) => {
                let wide_id: u128 = self.id as u128 * 10 + (i as u128 + 1);
                let id: u64 = (wide_id % 0x1_0000_0000_0000_0000u128) as u64;
                proof {
                    if self.level < MAX_EXACT_DEPTH {
                        lemma_htm_id_bound(self.id as nat, self.level as nat);
                        lemma_pow10_monotonic((self.level + 1) as nat, 18);
                        lemma_pow10_18();
                        assert(id == self.id * 10 + i + 1);
                        assert(id / 10 == self.id);
                    }
                }
                Ok(HtmDescent { depth: self.depth, level: self.level + 1, id, slot: i })
            },
            None => Err(ErrorCode::InvalidCoordinates),
        }
    }
}

/// Ten to the 18.
proof fn lemma_pow10_18()
    ensures
        pow10(18) == 1_000_000_000_000_000_000nat,
{
    reveal_with_fuel(pow10, 19);
}

/// An identifier of `level` rounds is below ten to the `level + 1`.
proof fn lemma_htm_id_bound(id: nat, level: nat)
    requires
        is_htm_id(id, level),
    ensures
        pow10(level) <= id < pow10(level + 1),
    decreases level,
{
    assert(pow10(0) == 1);
    assert(pow10(1) == 10);
    if level > 0 {
        lemma_htm_id_bound(id / 10, (level - 1) as nat);
        assert(pow10(level + 1) == 10 * pow10(level));
    }
}

/// The shape of what a descent of `level` rounds yields: `level + 1`
/// digits, the first of which names a base trixel and all the others a
/// child.
pub proof fn lemma_htm_id_shape(id: nat, level: nat)
    requires
        is_htm_id(id, level),
    ensures
        decimal_len(id) == level + 1,
        1 <= leading_digit(id) <= 8,
        decimal_digit(id, level) == leading_digit(id),
        forall|k: nat| k < level ==> 1 <= #[trigger] decimal_digit(id, k) <= 4,
        level >= 1 ==> 1 <= id % 10 <= 4,
    decreases level,
{
    assert(pow10(0) == 1);
    if level == 0 {
        assert(decimal_digit(id, 0) == id);
    } else {
        lemma_htm_id_shape(id / 10, (level - 1) as nat);
        lemma_htm_id_bound(id, level);
        lemma_pow10_positive(level);
        assert(pow10(level) == 10 * pow10((level - 1) as nat));
        assert(id >= 10);
        lemma_digit_shift(id, (level - 1) as nat);
        assert forall|k: nat| k < level implies 1 <= #[trigger] decimal_digit(id, k) <= 4 by {
            if k == 0 {
                assert(decimal_digit(id, 0) == id % 10);
            } else {
                lemma_digit_shift(id, (k - 1) as nat);
                assert(1 <= decimal_digit(id / 10, (k - 1) as nat) <= 4);
            }
        }
    }
}

/// What a descent yields is a well-formed trixel identifier exactly where
/// the descent is of no round or starts in one of the base trixels 1 to 4:
/// a trixel identifier keeps its base trixel in its last digit and has
/// child digits everywhere else, and a descent puts the base trixel first.
pub proof fn lemma_htm_id_well_formed(id: nat, level: nat)
    requires
        is_htm_id(id, level),
    ensures
        valid_trixel_id(id) <==> level == 0 || leading_digit(id) <= 4,
{
    lemma_htm_id_shape(id, level);
    assert(pow10(0) == 1);
    assert(decimal_digit(id, 0) == id % 10);
    if level > 0 && valid_trixel_id(id) {
        assert(1 <= decimal_digit(id, level) <= 4);
    }
    if level > 0 && leading_digit(id) <= 4 {
        assert forall|k: nat| 1 <= k < decimal_len(id) implies 1 <= #[trigger] decimal_digit(
            id,
            k,
        ) <= 4 by {
            if k < level {
            } else {
                assert(k == level);
            }
        }
    }
}

} // verus!
