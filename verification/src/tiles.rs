//! Tile types, the catalog, and the per-cell state.
//!
//! A `ConnectionRules` gives a tile type's selection weight and the connector
//! label it shows on each of its four edges. A `TileCollection` is the
//! catalog: a list of named tile types. A `Tile` is one cell of the grid,
//! either already `Collapsed` to a single type or still an open `Wave` over
//! the catalog entries that remain possible.

use crate::random::RandomSource;
use vstd::prelude::*;
use vstd::seq_lib::*;

verus! {

/// One of the four grid directions. `Up` is toward larger `y`,
/// `Right` toward larger `x`.
#[derive(Clone, Copy, PartialEq, Eq, Structural, Debug)]
pub enum Direction {
    Up,
    Down,
    Left,
    Right,
}

/// The direction that faces `d` back: a neighbour reached by walking `d`
/// touches the walker along `opp(d)`.
pub open spec fn opp(d: Direction) -> Direction {
    match d {
        Direction::Up => Direction::Down,
        Direction::Down => Direction::Up,
        Direction::Left => Direction::Right,
        Direction::Right => Direction::Left,
    }
}

impl Direction {
    /// Each direction's unique opposite.
    pub fn opposite(&self) -> (r: Direction)
        ensures
            r == opp(*self),
    {
        match self {
            Direction::Down => Direction::Up,
            Direction::Up => Direction::Down,
            Direction::Left => Direction::Right,
            Direction::Right => Direction::Left,
        }
    }
}

/// One tile type: its relative selection weight and the connector label on
/// each edge.
#[derive(Clone, PartialEq, Eq, Debug)]
pub struct ConnectionRules {
    pub weight: usize,
    pub up: String,
    pub down: String,
    pub left: String,
    pub right: String,
}

impl ConnectionRules {
    /// The connector label shown on edge `d`.
    pub open spec fn label(self, d: Direction) -> Seq<char> {
        match d {
            Direction::Up => self.up@,
            Direction::Down => self.down@,
            Direction::Left => self.left@,
            Direction::Right => self.right@,
        }
    }

    /// The label on edge `dir`.
    pub fn get(&self, dir: &Direction) -> (r: &String)
        ensures
            r@ == self.label(*dir),
    {
        match dir {
            Direction::Up => &self.up,
            Direction::Down => &self.down,
            Direction::Left => &self.left,
            Direction::Right => &self.right,
        }
    }

    /// An equal copy.
    pub fn duplicate(&self) -> (r: ConnectionRules)
        ensures
            r == *self,
    {
        ConnectionRules {
            weight: self.weight,
            up: self.up.clone(),
            down: self.down.clone(),
            left: self.left.clone(),
            right: self.right.clone(),
        }
    }
}

/// Two tile types may sit next to each other when the touching edges carry
/// the same label: `a` at some cell, `b` at the neighbouring cell in
/// direction `d` from it.
pub open spec fn compatible(a: ConnectionRules, d: Direction, b: ConnectionRules) -> bool {
    a.label(d) == b.label(opp(d))
}

/// One catalog entry: a tile type's unique name and its rules.
pub type Entry = (String, ConnectionRules);

/// The weight of the first `i` entries together.
pub open spec fn prefix_weight(s: Seq<Entry>, i: int) -> nat
    decreases i,
{
    if i <= 0 {
        0
    } else {
        (prefix_weight(s, i - 1) + s[i - 1].1.weight) as nat
    }
}

/// The weight of all entries together: the number of tickets a weighted
/// draw chooses from.
pub open spec fn total_weight(s: Seq<Entry>) -> nat {
    prefix_weight(s, s.len() as int)
}

/// What every candidate list satisfies: names are pairwise distinct (the
/// catalog is a mapping from name to rules), weights are positive (each
/// entry holds at least one ticket) and the ticket count fits the machine.
pub open spec fn entries_wf(s: Seq<Entry>) -> bool {
    &&& forall|i: int, j: int|
        0 <= i < j < s.len() ==> (#[trigger] s[i]).0@ != (#[trigger] s[j]).0@
    &&& forall|i: int| 0 <= i < s.len() ==> 1 <= (#[trigger] s[i]).1.weight
    &&& total_weight(s) <= usize::MAX
}

/// `prefix_weight` only reads the first `i` entries.
pub proof fn lemma_prefix_weight_agree(s: Seq<Entry>, t: Seq<Entry>, i: int)
    requires
        0 <= i <= s.len(),
        0 <= i <= t.len(),
        forall|j: int| 0 <= j < i ==> s[j] == t[j],
    ensures
        prefix_weight(s, i) == prefix_weight(t, i),
    decreases i,
{
    if i > 0 {
        lemma_prefix_weight_agree(s, t, i - 1);
    }
}

/// Prefix weights grow with the prefix.
pub proof fn lemma_prefix_weight_monotone(s: Seq<Entry>, i: int, j: int)
    requires
        0 <= i <= j,
    ensures
        prefix_weight(s, i) <= prefix_weight(s, j),
    decreases j - i,
{
    if i < j {
        lemma_prefix_weight_monotone(s, i, j - 1);
    }
}

/// With positive weights, a prefix holds at least one ticket per entry.
pub proof fn lemma_prefix_weight_lower(s: Seq<Entry>, i: int)
    requires
        0 <= i <= s.len(),
        forall|k: int| 0 <= k < s.len() ==> 1 <= (#[trigger] s[k]).1.weight,
    ensures
        i <= prefix_weight(s, i),
    decreases i,
{
    if i > 0 {
        lemma_prefix_weight_lower(s, i - 1);
    }
}

/// Filtering entries never increases the total weight.
pub proof fn lemma_total_weight_filter(s: Seq<Entry>, pred: spec_fn(Entry) -> bool)
    ensures
        total_weight(s.filter(pred)) <= total_weight(s),
    decreases s.len(),
{
    reveal(Seq::filter);
    if s.len() == 0 {
        assert(s.filter(pred) =~= s);
    } else {
        let rest = s.drop_last();
        lemma_total_weight_filter(rest, pred);
        lemma_prefix_weight_agree(rest, s, rest.len() as int);
        if pred(s.last()) {
            let f = s.filter(pred);
            assert(f == rest.filter(pred).push(s.last()));
            assert(f.drop_last() =~= rest.filter(pred));
            lemma_prefix_weight_agree(f.drop_last(), f, f.len() as int - 1);
        }
    }
}

/// Every element of a filtered sequence stands in the original.
pub proof fn lemma_filter_element_of<A>(s: Seq<A>, pred: spec_fn(A) -> bool, i: int)
    requires
        0 <= i < s.filter(pred).len(),
    ensures
        s.contains(s.filter(pred)[i]),
    decreases s.len(),
{
    reveal(Seq::filter);
    if s.len() > 0 {
        let rest = s.drop_last();
        let f = s.filter(pred);
        if pred(s.last()) && i == f.len() - 1 {
            assert(s[s.len() - 1] == f[i]);
        } else {
            lemma_filter_element_of(rest, pred, i);
            let j = choose|j: int| 0 <= j < rest.len() && rest[j] == rest.filter(pred)[i];
            assert(s[j] == rest.filter(pred)[i]);
        }
    }
}

/// Filtering keeps the entries' names pairwise distinct.
pub proof fn lemma_filter_distinct_names(s: Seq<Entry>, pred: spec_fn(Entry) -> bool)
    requires
        forall|i: int, j: int|
            0 <= i < j < s.len() ==> (#[trigger] s[i]).0@ != (#[trigger] s[j]).0@,
    ensures
        forall|i: int, j: int|
            0 <= i < j < s.filter(pred).len() ==> (#[trigger] s.filter(pred)[i]).0@ != (
            #[trigger] s.filter(pred)[j]).0@,
    decreases s.len(),
{
    reveal(Seq::filter);
    if s.len() > 0 {
        let rest = s.drop_last();
        assert forall|i: int, j: int|
            0 <= i < j < rest.len() implies (#[trigger] rest[i]).0@ != (
        #[trigger] rest[j]).0@ by {
            assert(rest[i] == s[i]);
            assert(rest[j] == s[j]);
        }
        lemma_filter_distinct_names(rest, pred);
        let f = s.filter(pred);
        if pred(s.last()) {
            assert(f == rest.filter(pred).push(s.last()));
            assert forall|i: int, j: int|
                0 <= i < j < f.len() implies (#[trigger] f[i]).0@ != (#[trigger] f[j]).0@ by {
                if j < f.len() - 1 {
                    assert(f[i] == rest.filter(pred)[i]);
                    assert(f[j] == rest.filter(pred)[j]);
                } else {
                    assert(f[j] == s.last());
                    assert(f[i] == rest.filter(pred)[i]);
                    lemma_filter_element_of(rest, pred, i);
                    let k = choose|k: int|
                        0 <= k < rest.len() && rest[k] == rest.filter(pred)[i];
                    assert(s[k] == rest[k]);
                    assert(s[k].0@ != s[s.len() - 1].0@);
                }
            }
        }
    }
}

/// Pushing an element and then filtering keeps the element exactly when the
/// predicate holds of it.
pub proof fn lemma_filter_push<A>(s: Seq<A>, pred: spec_fn(A) -> bool, e: A)
    ensures
        s.push(e).filter(pred) == if pred(e) {
            s.filter(pred).push(e)
        } else {
            s.filter(pred)
        },
{
    reveal(Seq::filter);
    assert(s.push(e).drop_last() =~= s);
    assert(s.push(e).last() == e);
}

/// The catalog: the named tile types a generation run chooses from, and the
/// candidate set a fresh cell starts with.
#[derive(Clone, PartialEq, Eq, Debug)]
pub struct TileCollection(pub Vec<Entry>);

impl TileCollection {
    /// Positive weights whose total fits the machine word.
    pub open spec fn wf(self) -> bool {
        entries_wf(self.0@)
    }

    pub fn new(entries: Vec<Entry>) -> (r: TileCollection)
        ensures
            r.0 == entries,
    {
        TileCollection(entries)
    }

    /// How many tile types remain possible: the breadth of the wave.
    pub fn entropy(&self) -> (r: usize)
        ensures
            r == self.0@.len(),
    {
        self.0.len()
    }

    /// A copy with the same entries.
    pub fn duplicate(&self) -> (r: TileCollection)
        ensures
            r.0@ == self.0@,
    {
        let mut entries: Vec<Entry> = Vec::new();
        let mut i: usize = 0;
        while i < self.0.len()
            invariant
                i <= self.0@.len(),
                entries@.len() == i,
                forall|j: int| 0 <= j < i ==> entries@[j] == self.0@[j],
            decreases self.0@.len() - i,
        {
            let name = self.0[i].0.clone();
            let rules = self.0[i].1.duplicate();
            entries.push((name, rules));
            i += 1;
        }
        assert(entries@ =~= self.0@);
        TileCollection(entries)
    }
}

/// What `Tile::collapse` reports when it cannot resolve a cell, and what a
/// stepping call reports when its arguments do not fit the grid.
#[derive(Clone, Copy, PartialEq, Eq, Structural, Debug)]
pub enum WfcError {
    /// `collapse` was asked to resolve a cell that is already resolved.
    AlreadyResolved,
    /// A contradiction: an open cell's candidate set was emptied by
    /// propagation before the cell was collapsed. The design does not
    /// backtrack, so the generation attempt is over.
    EmptyWave,
    /// A coordinate range reaches outside the grid.
    OutOfBounds,
}

/// One cell of the grid: resolved to a single tile type, or an open wave
/// over the catalog entries still possible there.
#[derive(Clone, PartialEq, Eq, Debug)]
pub enum Tile {
    Collapsed(String, ConnectionRules),
    Wave(TileCollection),
}

impl Tile {
    /// Still unresolved?
    pub open spec fn is_open(self) -> bool {
        self is Wave
    }

    /// The entries still possible here: the singleton for a resolved cell,
    /// the live subset of the catalog for an open one.
    pub open spec fn candidates(self) -> Seq<Entry> {
        match self {
            Tile::Collapsed(name, rules) => seq![(name, rules)],
            Tile::Wave(c) => c.0@,
        }
    }

    /// Positive weights whose total fits the machine word.
    pub open spec fn wf(self) -> bool {
        entries_wf(self.candidates())
    }

    /// A fresh cell: the full catalog is still possible.
    pub fn new(tiles: TileCollection) -> (r: Tile)
        ensures
            r == Tile::Wave(tiles),
    {
        Tile::Wave(tiles)
    }

    /// Still unresolved?
    pub fn is_wave(&self) -> (r: bool)
        ensures
            r == self.is_open(),
    {
        match self {
            Tile::Collapsed(_, _) => false,
            Tile::Wave(_) => true,
        }
    }

    /// A copy in the same state with the same candidates.
    pub fn duplicate(&self) -> (r: Tile)
        ensures
            r.is_open() == self.is_open(),
            r.candidates() == self.candidates(),
    {
        match self {
            Tile::Collapsed(name, rules) => Tile::Collapsed(name.clone(), rules.duplicate()),
            Tile::Wave(c) => Tile::Wave(c.duplicate()),
        }
    }

    /// The names of the tile types still possible here: a set, since a
    /// well-formed cell holds pairwise distinct names.
    pub fn get_tiles(&self) -> (r: Vec<String>)
        ensures
            r@.len() == self.candidates().len(),
            forall|i: int| 0 <= i < r@.len() ==> r@[i] == self.candidates()[i].0,
            self.wf() ==> forall|i: int, j: int|
                0 <= i < j < r@.len() ==> (#[trigger] r@[i])@ != (#[trigger] r@[j])@,
    {
        match self {
            Tile::Collapsed(name, _) => {
                let mut out: Vec<String> = Vec::new();
                out.push(name.clone());
                out
            },
            Tile::Wave(c) => {
                let mut out: Vec<String> = Vec::new();
                let mut i: usize = 0;
                while i < c.0.len()
                    invariant
                        i <= c.0@.len(),
                        out@.len() == i,
                        forall|j: int| 0 <= j < i ==> out@[j] == c.0@[j].0,
                    decreases c.0@.len() - i,
                {
                    out.push(c.0[i].0.clone());
                    i += 1;
                }
                out
            },
        }
    }

    /// How many tile types remain possible here: the cell's entropy when
    /// it is open.
    pub fn candidate_count(&self) -> (r: usize)
        ensures
            r == self.candidates().len(),
    {
        match self {
            Tile::Collapsed(_, _) => 1,
            Tile::Wave(c) => c.0.len(),
        }
    }

    /// Resolves this open cell to one of its candidates by a weighted
    /// random draw: each candidate owns as many tickets as its weight, one
    /// ticket below the total is drawn, and its owner becomes the resolved
    /// value. The one-way transition: a `Wave` becomes `Collapsed` and never
    /// reverts.
    pub fn collapse<R: RandomSource>(&mut self, rng: &mut R) -> (r: Result<
        (String, ConnectionRules),
        WfcError,
    >)
        requires
            old(self).wf(),
        ensures
            final(self).wf(),
            !old(self).is_open() ==> r == Err::<(String, ConnectionRules), WfcError>(
                WfcError::AlreadyResolved,
            ) && *final(self) == *old(self),
            old(self).is_open() && old(self).candidates().len() == 0 ==> r == Err::<
                (String, ConnectionRules),
                WfcError,
            >(WfcError::EmptyWave) && *final(self) == *old(self),
            old(self).is_open() && old(self).candidates().len() > 0 ==> match r {
                Ok(picked) => old(self).candidates().contains(picked) && *final(self)
                    == Tile::Collapsed(picked.0, picked.1),
                Err(_) => false,
            },
    {
        match self {
            Tile::Collapsed(_, _) => Err(WfcError::AlreadyResolved),
            Tile::Wave(c) => {
                if c.0.len() == 0 {
                    return Err(WfcError::EmptyWave);
                }
                let total = total_tickets(&c.0);
                proof {
                    lemma_prefix_weight_lower(c.0@, c.0@.len() as int);
                }
                let ticket = rng.random_below(total);
                let idx = select_weighted(&c.0, ticket);
                let name = c.0[idx].0.clone();
                let rules = c.0[idx].1.duplicate();
                let picked_name = name.clone();
                let picked_rules = rules.duplicate();
                proof {
                    assert(old(self).candidates()[idx as int] == (picked_name, picked_rules));
                    let s = seq![(picked_name, picked_rules)];
                    assert(prefix_weight(s, 0) == 0);
                    assert(total_weight(s) == s[0].1.weight);
                }
                *self = Tile::Collapsed(name, rules);
                Ok((picked_name, picked_rules))
            },
        }
    }

    /// Removes every candidate whose label on edge `dir` is not among
    /// `allowed`; a resolved cell is left alone. Reports whether anything
    /// was removed.
    pub fn retain_if_labels_match(&mut self, dir: &Direction, allowed: &Vec<String>) -> (changed:
        bool)
        ensures
            !old(self).is_open() ==> *final(self) == *old(self),
            old(self).is_open() ==> final(self).is_open() && final(self).candidates() == old(
                self,
            ).candidates().filter(keeps(allowed@, *dir)),
            changed == (final(self).candidates().len() != old(self).candidates().len()),
    {
        match self {
            Tile::Collapsed(_, _) => false,
            Tile::Wave(c) => {
                let ghost pred = keeps(allowed@, *dir);
                let mut kept: Vec<Entry> = Vec::new();
                let mut i: usize = 0;
                while i < c.0.len()
                    invariant
                        i <= c.0@.len(),
                        kept@ == c.0@.subrange(0, i as int).filter(pred),
                        pred == keeps(allowed@, *dir),
                    decreases c.0@.len() - i,
                {
                    proof {
                        assert(c.0@.subrange(0, i + 1) =~= c.0@.subrange(0, i as int).push(
                            c.0@[i as int],
                        ));
                        lemma_filter_push(c.0@.subrange(0, i as int), pred, c.0@[i as int]);
                    }
                    if label_in(allowed, c.0[i].1.get(dir)) {
                        let name = c.0[i].0.clone();
                        let rules = c.0[i].1.duplicate();
                        kept.push((name, rules));
                    }
                    i += 1;
                }
                proof {
                    assert(c.0@.subrange(0, c.0@.len() as int) =~= c.0@);
                }
                let changed = kept.len() != c.0.len();
                c.0 = kept;
                changed
            },
        }
    }

    /// The labels this cell shows on edge `dir`, one per candidate,
    /// duplicates preserved.
    pub fn get_sockets_for(&self, dir: &Direction) -> (r: Vec<String>)
        ensures
            r@.len() == self.candidates().len(),
            forall|i: int| 0 <= i < r@.len() ==> r@[i]@ == self.candidates()[i].1.label(*dir),
    {
        match self {
            Tile::Collapsed(_, rules) => {
                let mut out: Vec<String> = Vec::new();
                out.push(rules.get(dir).clone());
                out
            },
            Tile::Wave(c) => {
                let mut out: Vec<String> = Vec::new();
                let mut i: usize = 0;
                while i < c.0.len()
                    invariant
                        i <= c.0@.len(),
                        out@.len() == i,
                        forall|j: int| 0 <= j < i ==> out@[j]@ == c.0@[j].1.label(*dir),
                    decreases c.0@.len() - i,
                {
                    out.push(c.0[i].1.get(dir).clone());
                    i += 1;
                }
                out
            },
        }
    }
}

/// Does some string among `s` spell the label `lab`?
pub open spec fn contains_label(s: Seq<String>, lab: Seq<char>) -> bool {
    exists|i: int| 0 <= i < s.len() && s[i]@ == lab
}

/// Keep an entry when the label it shows on edge `dir` is among `allowed`.
pub open spec fn keeps(allowed: Seq<String>, dir: Direction) -> spec_fn(Entry) -> bool {
    |e: Entry| contains_label(allowed, e.1.label(dir))
}

/// Membership of a label among the allowed ones, by string equality.
fn label_in(allowed: &Vec<String>, lab: &String) -> (r: bool)
    ensures
        r == contains_label(allowed@, lab@),
{
    let mut i: usize = 0;
    while i < allowed.len()
        invariant
            i <= allowed@.len(),
            forall|j: int| 0 <= j < i ==> allowed@[j]@ != lab@,
        decreases allowed@.len() - i,
    {
        if allowed[i].eq(lab) {
            assert(allowed@[i as int]@ == lab@);
            return true;
        }
        i += 1;
    }
    false
}

/// The number of tickets the entries hold together.
pub fn total_tickets(entries: &Vec<Entry>) -> (r: usize)
    requires
        entries_wf(entries@),
    ensures
        r == total_weight(entries@),
{
    let mut acc: usize = 0;
    let mut i: usize = 0;
    while i < entries.len()
        invariant
            i <= entries@.len(),
            acc == prefix_weight(entries@, i as int),
            entries_wf(entries@),
        decreases entries@.len() - i,
    {
        proof {
            lemma_prefix_weight_monotone(entries@, i as int + 1, entries@.len() as int);
        }
        acc = acc + entries[i].1.weight;
        i += 1;
    }
    acc
}

/// The owner of ticket `ticket`: candidate `idx` owns the tickets from
/// `prefix_weight(entries, idx)` up to but not including
/// `prefix_weight(entries, idx + 1)`.
pub fn select_weighted(entries: &Vec<Entry>, ticket: usize) -> (idx: usize)
    requires
        entries_wf(entries@),
        ticket < total_weight(entries@),
    ensures
        idx < entries@.len(),
        prefix_weight(entries@, idx as int) <= ticket,
        ticket < prefix_weight(entries@, idx as int + 1),
{
    let mut acc: usize = 0;
    let mut i: usize = 0;
    while i < entries.len()
        invariant
            i <= entries@.len(),
            acc == prefix_weight(entries@, i as int),
            acc <= ticket,
            ticket < total_weight(entries@),
            entries_wf(entries@),
        decreases entries@.len() - i,
    {
        proof {
            lemma_prefix_weight_monotone(entries@, i as int + 1, entries@.len() as int);
        }
        let w = entries[i].1.weight;
        if ticket < acc + w {
            return i;
        }
        acc = acc + w;
        i += 1;
    }
    proof {
        assert(false);
    }
    0
}

} // verus!
