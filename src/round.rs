use vstd::prelude::*;

verus! {

/// Why a line of the game log could not be decoded.
#[derive(Clone, Copy, Debug, PartialEq, Eq, Structural)]
pub enum ParseError {
    /// The line holds no `": "` after its label.
    MissingSeparator,
    /// The round text still holds a colon.
    UnexpectedColon,
    /// A `count colour` token does not split into exactly two fields.
    MalformedToken,
    /// The count of a token is not a decimal number that fits in 32 bits.
    InvalidCount,
    /// A colour is named twice within one round.
    DuplicateColour,
    /// A round names a colour other than red, green and blue.
    UnknownColour,
}

/// The cubes of each colour shown in one round.
#[derive(Clone, Copy, Debug, PartialEq, Eq, Structural)]
pub struct Round {
    pub red: u32,
    pub green: u32,
    pub blue: u32,
}

pub open spec fn red_name() -> Seq<u8> {
    seq![0x72u8, 0x65u8, 0x64u8]
}

pub open spec fn green_name() -> Seq<u8> {
    seq![0x67u8, 0x72u8, 0x65u8, 0x65u8, 0x6eu8]
}

pub open spec fn blue_name() -> Seq<u8> {
    seq![0x62u8, 0x6cu8, 0x75u8, 0x65u8]
}

pub open spec fn is_known_colour(name: Seq<u8>) -> bool {
    name == red_name() || name == green_name() || name == blue_name()
}

/// The count that `m` gives `name`, zero where it gives none.
pub open spec fn count_or_zero(m: Map<Seq<u8>, u32>, name: Seq<u8>) -> u32 {
    if m.dom().contains(name) {
        m[name]
    } else {
        0
    }
}

/// The round that a colour map describes: an error if it names any colour
/// but the three known ones, else the count of each, zero where missing.
pub open spec fn round_from_map(m: Map<Seq<u8>, u32>) -> Result<Round, ParseError> {
    if forall|k: Seq<u8>| #[trigger] m.dom().contains(k) ==> is_known_colour(k) {
        Ok(
            Round {
                red: count_or_zero(m, red_name()),
                green: count_or_zero(m, green_name()),
                blue: count_or_zero(m, blue_name()),
            },
        )
    } else {
        Err(ParseError::UnknownColour)
    }
}

/// The map that the first entries of `names` and `counts` give, a later
/// entry overriding an earlier one.
pub open spec fn entries_map(names: Seq<Seq<u8>>, counts: Seq<u32>) -> Map<Seq<u8>, u32>
    decreases names.len(),
{
    if names.len() == 0 || counts.len() == 0 {
        Map::empty()
    } else {
        entries_map(names.drop_last(), counts.drop_last()).insert(names.last(), counts.last())
    }
}

/// The names of `entries_map` are exactly the names listed.
pub proof fn entries_map_dom(names: Seq<Seq<u8>>, counts: Seq<u32>, k: Seq<u8>)
    requires
        names.len() == counts.len(),
    ensures
        entries_map(names, counts).dom().contains(k) <==> exists|i: int|
            0 <= i < names.len() && names[i] == k,
    decreases names.len(),
{
    if names.len() > 0 {
        entries_map_dom(names.drop_last(), counts.drop_last(), k);
        if entries_map(names.drop_last(), counts.drop_last()).dom().contains(k) {
            let i = choose|i: int| 0 <= i < names.len() - 1 && names.drop_last()[i] == k;
            assert(names[i] == k);
        }
        if exists|i: int| 0 <= i < names.len() && names[i] == k {
            let i = choose|i: int| 0 <= i < names.len() && names[i] == k;
            if i < names.len() - 1 {
                assert(names.drop_last()[i] == k);
            }
        }
    }
}

/// With distinct names, each listed name maps to its own count.
pub proof fn entries_map_value(names: Seq<Seq<u8>>, counts: Seq<u32>, i: int)
    requires
        names.len() == counts.len(),
        names.no_duplicates(),
        0 <= i < names.len(),
    ensures
        entries_map(names, counts).dom().contains(names[i]),
        entries_map(names, counts)[names[i]] == counts[i],
    decreases names.len(),
{
    if i < names.len() - 1 {
        assert(names.drop_last()[i] == names[i]);
        entries_map_value(names.drop_last(), counts.drop_last(), i);
        assert(names[i] != names.last());
    }
}

/// The colour counts of one round, keyed by colour name, each name once.
pub struct ColourMap<'a> {
    names: Vec<&'a [u8]>,
    counts: Vec<u32>,
}

impl<'a> ColourMap<'a> {
    pub closed spec fn name_seq(&self) -> Seq<Seq<u8>> {
        self.names@.map_values(|n: &'a [u8]| n@)
    }

    pub closed spec fn wf(&self) -> bool {
        self.names@.len() == self.counts@.len() && self.name_seq().no_duplicates()
    }

    pub closed spec fn view(&self) -> Map<Seq<u8>, u32> {
        entries_map(self.name_seq(), self.counts@)
    }

    pub fn new() -> (r: ColourMap<'a>)
        ensures
            r.wf(),
            r.view() == Map::<Seq<u8>, u32>::empty(),
    {
        let r = ColourMap { names: Vec::new(), counts: Vec::new() };
        proof {
            assert(r.name_seq() =~= Seq::<Seq<u8>>::empty());
        }
        r
    }

    /// The index of `name` among the entries.
    fn position(&self, name: &[u8]) -> (r: Option<usize>)
        requires
            self.wf(),
        ensures
            match r {
                Some(i) => i < self.names@.len() && self.name_seq()[i as int] == name@,
                None => !self.view().dom().contains(name@),
            },
    {
        let mut i: usize = 0;
        while i < self.names.len()
            invariant
                self.wf(),
                i <= self.names@.len(),
                forall|j: int| 0 <= j < i ==> self.name_seq()[j] != name@,
            decreases self.names@.len() - i,
        {
            if crate::text::bytes_equal(self.names[i], name) {
                return Some(i);
            }
            i = i + 1;
        }
        proof {
            entries_map_dom(self.name_seq(), self.counts@, name@);
        }
        None
    }

    /// The count given to `name`, if any.
    pub fn get(&self, name: &[u8]) -> (r: Option<u32>)
        requires
            self.wf(),
        ensures
            r == (if self.view().dom().contains(name@) {
                Some(self.view()[name@])
            } else {
                None
            }),
    {
        match self.position(name) {
            Some(i) => {
                proof {
                    entries_map_value(self.name_seq(), self.counts@, i as int);
                }
                Some(self.counts[i])
            },
            None => None,
        }
    }

    /// Records `count` for `name`; a name already present is an error and
    /// leaves the map as it was.
    pub fn insert(&mut self, name: &'a [u8], count: u32) -> (r: Result<(), ParseError>)
        requires
            old(self).wf(),
        ensures
            final(self).wf(),
            old(self).view().dom().contains(name@) ==> r == Err::<(), ParseError>(
                ParseError::DuplicateColour,
            ) && final(self).view() == old(self).view(),
            !old(self).view().dom().contains(name@) ==> r == Ok::<(), ParseError>(())
                && final(self).view() == old(self).view().insert(name@, count),
    {
        match self.position(name) {
            Some(i) => {
                proof {
                    entries_map_value(self.name_seq(), self.counts@, i as int);
                }
                Err(ParseError::DuplicateColour)
            },
            None => {
                let ghost before = self.name_seq();
                proof {
                    entries_map_dom(self.name_seq(), self.counts@, name@);
                }
                self.names.push(name);
                self.counts.push(count);
                proof {
                    assert(self.name_seq() =~= before.push(name@));
                    assert(self.name_seq().drop_last() =~= before);
                    assert(self.counts@.drop_last() =~= old(self).counts@);
                    assert forall|a: int, b: int|
                        0 <= a < b < self.name_seq().len() implies self.name_seq()[a]
                        != self.name_seq()[b] by {
                        if b == self.name_seq().len() - 1 {
                            assert(before[a] == self.name_seq()[a]);
                        }
                    }
                }
                Ok(())
            },
        }
    }

    /// Whether every name in the map is red, green or blue.
    pub fn only_known_colours(&self) -> (r: bool)
        requires
            self.wf(),
        ensures
            r == (forall|k: Seq<u8>| #[trigger] self.view().dom().contains(k) ==> is_known_colour(k)),
    {
        let mut i: usize = 0;
        while i < self.names.len()
            invariant
                self.wf(),
                i <= self.names@.len(),
                forall|j: int| 0 <= j < i ==> is_known_colour(#[trigger] self.name_seq()[j]),
            decreases self.names@.len() - i,
        {
            proof {
                assert(self.name_seq()[i as int] == self.names@[i as int]@);
            }
            if !is_known_name(self.names[i]) {
                proof {
                    let k = self.name_seq()[i as int];
                    assert(k == self.names@[i as int]@);
                    entries_map_dom(self.name_seq(), self.counts@, k);
                    assert(self.view().dom().contains(k));
                }
                return false;
            }
            i = i + 1;
        }
        proof {
            assert forall|k: Seq<u8>| #[trigger] self.view().dom().contains(k) implies is_known_colour(k) by {
                entries_map_dom(self.name_seq(), self.counts@, k);
            }
        }
        true
    }
}

fn red_bytes() -> (r: Vec<u8>)
    ensures
        r@ == red_name(),
{
    let r = vec![0x72u8, 0x65u8, 0x64u8];
    assert(r@ =~= red_name());
    r
}

fn green_bytes() -> (r: Vec<u8>)
    ensures
        r@ == green_name(),
{
    let r = vec![0x67u8, 0x72u8, 0x65u8, 0x65u8, 0x6eu8];
    assert(r@ =~= green_name());
    r
}

fn blue_bytes() -> (r: Vec<u8>)
    ensures
        r@ == blue_name(),
{
    let r = vec![0x62u8, 0x6cu8, 0x75u8, 0x65u8];
    assert(r@ =~= blue_name());
    r
}

fn is_known_name(name: &[u8]) -> (r: bool)
    ensures
        r == is_known_colour(name@),
{
    let red = red_bytes();
    let green = green_bytes();
    let blue = blue_bytes();
    crate::text::bytes_equal(name, red.as_slice()) || crate::text::bytes_equal(
        name,
        green.as_slice(),
    ) || crate::text::bytes_equal(name, blue.as_slice())
}

impl Round {
    /// Reads a round from its colour map: each of red, green and blue takes
    /// its count, or zero where absent; any other colour is an error.
    pub fn from_hash_map(map: &ColourMap) -> (r: Result<Round, ParseError>)
        requires
            map.wf(),
        ensures
            r == round_from_map(map.view()),
    {
        if !map.only_known_colours() {
            return Err(ParseError::UnknownColour);
        }
        let red_key = red_bytes();
        let green_key = green_bytes();
        let blue_key = blue_bytes();
        let red = match map.get(red_key.as_slice()) {
            Some(value) => value,
            None => 0,
        };
        let green = match map.get(green_key.as_slice()) {
            Some(value) => value,
            None => 0,
        };
        let blue = match map.get(blue_key.as_slice()) {
            Some(value) => value,
            None => 0,
        };
        Ok(Round { red, green, blue })
    }

    /// The number of cubes shown in the round.
    pub fn total_cubes(&self) -> (r: u64)
        ensures
            r == self.red + self.green + self.blue,
    {
        self.red as u64 + self.green as u64 + self.blue as u64
    }

    /// Whether no colour, nor the total, exceeds that of `constraints`.
    pub fn satisfies_constraints(&self, constraints: &Round) -> (r: bool)
        ensures
            r == self.satisfies(*constraints),
    {
        self.red <= constraints.red && self.green <= constraints.green && self.blue
            <= constraints.blue && self.total_cubes() <= constraints.total_cubes()
    }

    pub open spec fn satisfies(self, constraints: Round) -> bool {
        &&& self.red <= constraints.red
        &&& self.green <= constraints.green
        &&& self.blue <= constraints.blue
        &&& self.red + self.green + self.blue <= constraints.red + constraints.green
            + constraints.blue
    }
}

} // verus!
