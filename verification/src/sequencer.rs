//! The file sequencer: the on-disk generation counter and data file
//! naming scheme.
//!
//! A settled data directory holds one file named with the bare decimal
//! counter value and one data file `data_<k>` per generation `k` opened so
//! far. This module makes every decision — which entry is the counter,
//! what to rename, what to create — on a directory listing handed in by
//! the caller; the caller performs the returned actions on disk.

#![verifier::loop_isolation(false)]

use crate::digits::all_digits;
use crate::digits::dec_seq;
use crate::digits::dec_val;
use crate::digits::lemma_dec_seq_injective;
use crate::digits::lemma_dec_seq_props;
use crate::digits::parse_dec_bounded;
use crate::digits::render_u32;
use vstd::prelude::*;

verus! {

/// Why the sequencer could not settle or advance the numbering state.
#[derive(Clone, Copy, Debug, PartialEq, Eq, Structural)]
pub enum SequencerError {
    /// The directory's first-sorted entry is not a bare decimal counter.
    CorruptCounter,
    /// A data file for the next generation already exists.
    GenerationCollision,
    /// A filesystem operation failed; constructed by the caller that
    /// performs the I/O, never by the decision logic here.
    Io,
}

/// Name of the counter file at generation `c`: the bare decimal value.
pub open spec fn counter_name(c: nat) -> Seq<u8> {
    dec_seq(c)
}

/// Name of the data file of generation `c`: `data_` then the decimal value.
pub open spec fn data_name(c: nat) -> Seq<u8> {
    seq![0x64u8, 0x61u8, 0x74u8, 0x61u8, 0x5fu8] + dec_seq(c)
}

/// The names in a directory listing.
pub open spec fn name_views(l: Seq<Vec<u8>>) -> Seq<Seq<u8>> {
    Seq::new(l.len(), |i: int| l[i]@)
}

pub open spec fn listing_contains(l: Seq<Seq<u8>>, name: Seq<u8>) -> bool {
    exists|i: int| 0 <= i < l.len() && l[i] == name
}

/// Strict lexicographic byte order, the order a name-sorted directory
/// listing uses.
pub open spec fn lex_lt(a: Seq<u8>, b: Seq<u8>) -> bool
    decreases a.len(),
{
    if b.len() == 0 {
        false
    } else if a.len() == 0 {
        true
    } else if a[0] < b[0] {
        true
    } else if a[0] > b[0] {
        false
    } else {
        lex_lt(a.skip(1), b.skip(1))
    }
}

/// The lexicographically smallest name of a non-empty listing.
pub open spec fn lex_min_seq(l: Seq<Seq<u8>>) -> Seq<u8>
    decreases l.len(),
{
    if l.len() <= 1 {
        l[0]
    } else {
        let m = lex_min_seq(l.drop_last());
        if lex_lt(l.last(), m) {
            l.last()
        } else {
            m
        }
    }
}

/// A directory entry parsed as a bare decimal counter value.
pub open spec fn spec_parse_counter(s: Seq<u8>) -> Option<u32> {
    if s.len() > 0 && all_digits(s) && dec_val(s) <= u32::MAX {
        Some(dec_val(s) as u32)
    } else {
        None
    }
}

/// What the caller must do on disk after a bootstrap decision.
#[derive(Clone, Copy, Debug, PartialEq, Eq, Structural)]
pub struct BootstrapActions {
    /// The directory itself must be created first.
    pub create_directory: bool,
    /// The initial counter file and data file of generation zero must be
    /// created.
    pub initialize: bool,
}

/// What the caller must do on disk to perform one rotation: rename the
/// counter file, then create the next data file.
#[derive(Debug, PartialEq, Eq)]
pub struct RotateActions {
    pub rename_from: Vec<u8>,
    pub rename_to: Vec<u8>,
    pub create_data: Vec<u8>,
}

/// The bootstrap decision on a directory listing (`None` when the
/// directory does not exist): a missing or empty directory is initialized
/// at counter zero; otherwise the lexicographically smallest entry is the
/// counter file, and a counter that does not parse is corruption.
pub open spec fn spec_bootstrap(listing: Option<Seq<Seq<u8>>>) -> Result<
    (u32, BootstrapActions),
    SequencerError,
> {
    match listing {
        None => Ok((0u32, BootstrapActions { create_directory: true, initialize: true })),
        Some(l) => {
            if l.len() == 0 {
                Ok((0u32, BootstrapActions { create_directory: false, initialize: true }))
            } else {
                match spec_parse_counter(lex_min_seq(l)) {
                    Some(c) => Ok(
                        (c, BootstrapActions { create_directory: false, initialize: false }),
                    ),
                    None => Err(SequencerError::CorruptCounter),
                }
            }
        },
    }
}

proof fn lemma_lex_lt_trans(a: Seq<u8>, b: Seq<u8>, c: Seq<u8>)
    requires
        lex_lt(a, b),
        lex_lt(b, c),
    ensures
        lex_lt(a, c),
    decreases a.len(),
{
    if c.len() == 0 {
        assert(false);
    } else if b.len() == 0 {
        assert(false);
    } else if a.len() == 0 {
    } else {
        if a[0] == b[0] && b[0] == c[0] {
            lemma_lex_lt_trans(a.skip(1), b.skip(1), c.skip(1));
        }
    }
}

proof fn lemma_lex_lt_irrefl(a: Seq<u8>)
    ensures
        !lex_lt(a, a),
    decreases a.len(),
{
    if a.len() > 0 {
        lemma_lex_lt_irrefl(a.skip(1));
    }
}

/// The minimum is an element of the listing, and no element is below it.
pub proof fn lemma_lex_min_props(l: Seq<Seq<u8>>)
    requires
        l.len() >= 1,
    ensures
        l.contains(lex_min_seq(l)),
        forall|i: int| 0 <= i < l.len() ==> !lex_lt(#[trigger] l[i], lex_min_seq(l)),
    decreases l.len(),
{
    if l.len() == 1 {
        assert(l[0] == lex_min_seq(l));
        lemma_lex_lt_irrefl(l[0]);
    } else {
        let prev = l.drop_last();
        lemma_lex_min_props(prev);
        let m = lex_min_seq(prev);
        let keep = lex_min_seq(l);
        assert(prev.contains(m));
        let j = choose|j: int| 0 <= j < prev.len() && prev[j] == m;
        assert(l[j] == m);
        if lex_lt(l.last(), m) {
            assert(l.contains(keep)) by {
                assert(l[l.len() - 1] == keep);
            }
            assert forall|i: int| 0 <= i < l.len() implies !lex_lt(#[trigger] l[i], keep) by {
                if i < l.len() - 1 {
                    assert(prev[i] == l[i]);
                    if lex_lt(l[i], keep) {
                        lemma_lex_lt_trans(l[i], keep, m);
                    }
                } else {
                    lemma_lex_lt_irrefl(keep);
                }
            }
        } else {
            assert(l.contains(keep)) by {
                assert(l[j] == keep);
            }
            assert forall|i: int| 0 <= i < l.len() implies !lex_lt(#[trigger] l[i], keep) by {
                if i < l.len() - 1 {
                    assert(prev[i] == l[i]);
                }
            }
        }
    }
}

/// Whether the lexicographic order of two names is already decided by
/// their first `i` bytes being equal: comparison continues on the rest.
proof fn lemma_lex_lt_common_prefix(a: Seq<u8>, b: Seq<u8>, i: int)
    requires
        0 <= i <= a.len(),
        i <= b.len(),
        forall|k: int| 0 <= k < i ==> a[k] == #[trigger] b[k],
    ensures
        lex_lt(a, b) == lex_lt(a.skip(i), b.skip(i)),
    decreases i,
{
    if i == 0 {
        assert(a.skip(0) =~= a);
        assert(b.skip(0) =~= b);
    } else {
        assert(a[0] == b[0]);
        assert forall|k: int| 0 <= k < i - 1 implies a.skip(1)[k] == #[trigger] b.skip(1)[k] by {
            assert(a.skip(1)[k] == a[k + 1]);
            assert(b.skip(1)[k] == b[k + 1]);
        }
        lemma_lex_lt_common_prefix(a.skip(1), b.skip(1), i - 1);
        assert(a.skip(1).skip(i - 1) =~= a.skip(i));
        assert(b.skip(1).skip(i - 1) =~= b.skip(i));
    }
}

/// Compares two names in lexicographic byte order.
pub fn lex_less(a: &Vec<u8>, b: &Vec<u8>) -> (r: bool)
    ensures
        r == lex_lt(a@, b@),
{
    let n: usize = if a.len() < b.len() {
        a.len()
    } else {
        b.len()
    };
    let mut i: usize = 0;
    while i < n
        invariant
            0 <= i <= n,
            forall|k: int| 0 <= k < i ==> a@[k] == #[trigger] b@[k],
        decreases n - i,
    {
        if a[i] < b[i] {
            proof {
                lemma_lex_lt_common_prefix(a@, b@, i as int);
                assert(a@.skip(i as int)[0] == a@[i as int]);
                assert(b@.skip(i as int)[0] == b@[i as int]);
            }
            return true;
        }
        if a[i] > b[i] {
            proof {
                lemma_lex_lt_common_prefix(a@, b@, i as int);
                assert(a@.skip(i as int)[0] == a@[i as int]);
                assert(b@.skip(i as int)[0] == b@[i as int]);
            }
            return false;
        }
        i = i + 1;
    }
    proof {
        lemma_lex_lt_common_prefix(a@, b@, n as int);
    }
    a.len() < b.len()
}

/// Index of the lexicographically smallest entry of a non-empty listing.
fn min_index(entries: &Vec<Vec<u8>>) -> (r: usize)
    requires
        entries@.len() >= 1,
    ensures
        0 <= r < entries@.len(),
        entries@[r as int]@ == lex_min_seq(name_views(entries@)),
{
    let mut best: usize = 0;
    let mut i: usize = 1;
    proof {
        assert(entries@[0]@ == lex_min_seq(name_views(entries@).take(1)));
    }
    while i < entries.len()
        invariant
            0 <= best < i <= entries@.len(),
            entries@[best as int]@ == lex_min_seq(name_views(entries@).take(i as int)),
        decreases entries@.len() - i,
    {
        proof {
            assert(name_views(entries@).take(i as int + 1).drop_last() =~= name_views(
                entries@,
            ).take(i as int));
            assert(name_views(entries@).take(i as int + 1).last() == entries@[i as int]@);
        }
        if lex_less(&entries[i], &entries[best]) {
            best = i;
        }
        i = i + 1;
    }
    proof {
        assert(name_views(entries@).take(i as int) =~= name_views(entries@));
    }
    best
}

/// Byte-for-byte equality of two names.
fn names_equal(a: &Vec<u8>, b: &Vec<u8>) -> (r: bool)
    ensures
        r == (a@ == b@),
{
    if a.len() != b.len() {
        return false;
    }
    let mut i: usize = 0;
    while i < a.len()
        invariant
            0 <= i <= a@.len(),
            a@.len() == b@.len(),
            forall|k: int| 0 <= k < i ==> a@[k] == #[trigger] b@[k],
        decreases a@.len() - i,
    {
        if a[i] != b[i] {
            return false;
        }
        i = i + 1;
    }
    proof {
        assert(a@ =~= b@);
    }
    true
}

/// Whether the listing holds an entry with exactly this name.
pub fn listing_has(listing: &Vec<Vec<u8>>, name: &Vec<u8>) -> (r: bool)
    ensures
        r == listing_contains(name_views(listing@), name@),
{
    let mut i: usize = 0;
    while i < listing.len()
        invariant
            0 <= i <= listing@.len(),
            forall|k: int| 0 <= k < i ==> #[trigger] name_views(listing@)[k] != name@,
        decreases listing@.len() - i,
    {
        if names_equal(&listing[i], name) {
            proof {
                assert(name_views(listing@)[i as int] == name@);
            }
            return true;
        }
        i = i + 1;
    }
    false
}

/// Renders the counter file name of generation `c`.
pub fn counter_file_name(c: u32) -> (s: Vec<u8>)
    ensures
        s@ == counter_name(c as nat),
{
    render_u32(c)
}

/// Renders the data file name of generation `c`.
pub fn data_file_name(c: u32) -> (s: Vec<u8>)
    ensures
        s@ == data_name(c as nat),
{
    let mut v: Vec<u8> = Vec::new();
    v.push(0x64);
    v.push(0x61);
    v.push(0x74);
    v.push(0x61);
    v.push(0x5f);
    let mut d = render_u32(c);
    v.append(&mut d);
    proof {
        assert(v@ =~= data_name(c as nat));
    }
    v
}

/// The sequencer's numbering state: the directory it owns and the current
/// generation counter.
#[derive(Debug, PartialEq, Eq)]
pub struct SequencerState {
    pub directory: Vec<u8>,
    pub counter: u32,
}

impl SequencerState {
    /// Establishes or resumes the numbering state from a directory listing
    /// (`None` when the directory does not exist yet). Pure decision: the
    /// returned actions say what the caller must then do on disk, and the
    /// scan itself mutates nothing.
    pub fn bootstrap(directory: Vec<u8>, listing: Option<&Vec<Vec<u8>>>) -> (r: Result<
        (SequencerState, BootstrapActions),
        SequencerError,
    >)
        ensures
            ({
                let lv = match listing {
                    Some(l) => Some(name_views(l@)),
                    None => None,
                };
                match (r, spec_bootstrap(lv)) {
                    (Ok(p), Ok(q)) => p.0.directory@ == directory@ && p.0.counter == q.0 && p.1
                        == q.1,
                    (Err(e), Err(f)) => e == f,
                    _ => false,
                }
            }),
    {
        match listing {
            None => Ok(
                (
                    SequencerState { directory, counter: 0 },
                    BootstrapActions { create_directory: true, initialize: true },
                ),
            ),
            Some(entries) => {
                if entries.len() == 0 {
                    Ok(
                        (
                            SequencerState { directory, counter: 0 },
                            BootstrapActions { create_directory: false, initialize: true },
                        ),
                    )
                } else {
                    let idx = min_index(entries);
                    match parse_dec_bounded(entries[idx].as_slice(), 0xFFFF_FFFF) {
                        Some(v) => {
                            proof {
                                crate::digits::lemma_dec_val_nonneg(entries@[idx as int]@);
                            }
                            Ok(
                            (
                                SequencerState { directory, counter: v as u32 },
                                BootstrapActions { create_directory: false, initialize: false },
                            ),
                        )
                        },
                        None => Err(SequencerError::CorruptCounter),
                    }
                }
            },
        }
    }

    /// Advances to the next generation: the counter file is renamed to the
    /// incremented value and a fresh data file is opened, unless a data
    /// file for that generation already exists, which is a collision and
    /// changes nothing.
    pub fn rotate(&mut self, listing: &Vec<Vec<u8>>) -> (r: Result<RotateActions, SequencerError>)
        requires
            old(self).counter < u32::MAX,
        ensures
            final(self).directory == old(self).directory,
            listing_contains(name_views(listing@), data_name((old(self).counter + 1) as nat))
                ==> final(self).counter == old(self).counter && r == Err::<
                RotateActions,
                SequencerError,
            >(SequencerError::GenerationCollision),
            !listing_contains(name_views(listing@), data_name((old(self).counter + 1) as nat)) ==> {
                &&& final(self).counter == old(self).counter + 1
                &&& r matches Ok(a)
                &&& (r matches Ok(a) ==> a.rename_from@ == counter_name(old(self).counter as nat)
                    && a.rename_to@ == counter_name((old(self).counter + 1) as nat)
                    && a.create_data@ == data_name((old(self).counter + 1) as nat))
            },
    {
        let next = self.counter + 1;
        let target = data_file_name(next);
        if listing_has(listing, &target) {
            return Err(SequencerError::GenerationCollision);
        }
        let actions = RotateActions {
            rename_from: counter_file_name(self.counter),
            rename_to: counter_file_name(next),
            create_data: target,
        };
        self.counter = next;
        Ok(actions)
    }

    /// The path of the active generation's data file: the directory
    /// followed by the data file name. Pure derivation, no I/O.
    pub fn current_path(&self) -> (r: Vec<u8>)
        ensures
            r@ == self.directory@ + data_name(self.counter as nat),
    {
        let mut v = vstd::slice::slice_to_vec(self.directory.as_slice());
        let mut d = data_file_name(self.counter);
        v.append(&mut d);
        v
    }
}

/// The file names a settled directory holds at generation `c`: the bare
/// counter file, and one data file for every generation opened so far —
/// none skipped, none duplicated.
pub open spec fn settled_names(c: nat) -> Set<Seq<u8>> {
    Set::new(|n: Seq<u8>| n == counter_name(c) || (exists|k: nat| k <= c && n == data_name(k)))
}

/// Effect of performing the rotation actions of generation `c` on the set
/// of names on disk: the counter file is renamed, the next data file
/// created.
pub open spec fn rotate_effect(names: Set<Seq<u8>>, c: nat) -> Set<Seq<u8>> {
    names.remove(counter_name(c)).insert(counter_name(c + 1)).insert(data_name(c + 1))
}

/// Counter files and data files never share a name, and within each kind
/// the generation number makes the name unique.
pub proof fn lemma_names_distinct(a: nat, b: nat)
    ensures
        counter_name(a) != data_name(b),
        a != b ==> counter_name(a) != counter_name(b),
        a != b ==> data_name(a) != data_name(b),
{
    lemma_dec_seq_props(a);
    lemma_dec_seq_props(b);
    assert(data_name(b)[0] == 0x64u8);
    assert(crate::digits::is_digit(counter_name(a)[0]));
    if a != b {
        if counter_name(a) == counter_name(b) {
            lemma_dec_seq_injective(a, b);
        }
        if data_name(a) == data_name(b) {
            assert(dec_seq(a) =~= data_name(a).skip(5));
            assert(dec_seq(b) =~= data_name(b).skip(5));
            lemma_dec_seq_injective(a, b);
        }
    }
}

/// A freshly initialized directory — the two files the bootstrap actions
/// create — is the settled directory of generation zero.
pub proof fn lemma_initial_settled()
    ensures
        settled_names(0) == Set::empty().insert(counter_name(0)).insert(data_name(0)),
{
    assert forall|n: Seq<u8>|
        settled_names(0).contains(n) <==> Set::empty().insert(counter_name(0)).insert(
            data_name(0),
        ).contains(n) by {
        if settled_names(0).contains(n) && n != counter_name(0) {
            let k = choose|k: nat| k <= 0 && n == data_name(k);
            assert(k == 0);
        }
    }
    assert(settled_names(0) =~= Set::empty().insert(counter_name(0)).insert(data_name(0)));
}

/// Rotating a settled directory never collides, and settles the next
/// generation: applied `n` times from a fresh directory this yields
/// `counter == n` with a data file for every generation `0..=n`.
pub proof fn lemma_rotate_settled(names: Set<Seq<u8>>, c: nat)
    requires
        names == settled_names(c),
    ensures
        !names.contains(data_name(c + 1)),
        rotate_effect(names, c) == settled_names(c + 1),
{
    if names.contains(data_name(c + 1)) {
        lemma_names_distinct(c, c + 1);
        let k = choose|k: nat| k <= c && data_name(c + 1) == #[trigger] data_name(k);
        lemma_names_distinct(k, c + 1);
        assert(false);
    }
    assert forall|n: Seq<u8>|
        rotate_effect(names, c).contains(n) <==> settled_names(c + 1).contains(n) by {
        if rotate_effect(names, c).contains(n) {
            if n != counter_name(c + 1) && n != data_name(c + 1) {
                assert(names.contains(n) && n != counter_name(c));
                if n != counter_name(c) {
                    let k = choose|k: nat| k <= c && n == data_name(k);
                    assert(k <= c + 1 && n == data_name(k));
                }
            }
        }
        if settled_names(c + 1).contains(n) {
            if n == counter_name(c + 1) {
            } else {
                let k = choose|k: nat| k <= c + 1 && n == data_name(k);
                if k == c + 1 {
                } else {
                    assert(settled_names(c).contains(n));
                    lemma_names_distinct(c, k);
                    lemma_names_distinct(c + 1, k);
                    assert(rotate_effect(names, c).contains(n));
                }
            }
        }
    }
    assert(rotate_effect(names, c) =~= settled_names(c + 1));
}

/// The set of names on disk after `n` rotations from a freshly
/// initialized directory.
pub open spec fn names_after_rotations(n: nat) -> Set<Seq<u8>>
    decreases n,
{
    if n == 0 {
        Set::empty().insert(counter_name(0)).insert(data_name(0))
    } else {
        rotate_effect(names_after_rotations((n - 1) as nat), (n - 1) as nat)
    }
}

/// Rotation applied `n` times from a freshly initialized directory yields
/// the settled directory of generation `n`: the counter file reads `n`
/// and a data file exists for every generation `0..=n` — none skipped,
/// none duplicated.
pub proof fn lemma_rotations_from_fresh(n: nat)
    ensures
        names_after_rotations(n) == settled_names(n),
    decreases n,
{
    if n == 0 {
        lemma_initial_settled();
    } else {
        lemma_rotations_from_fresh((n - 1) as nat);
        lemma_rotate_settled(names_after_rotations((n - 1) as nat), (n - 1) as nat);
    }
}

/// Bootstrap is read-only and idempotent on a settled directory: it finds
/// the counter file as the smallest entry, reports its value, and asks for
/// no filesystem actions — so a second bootstrap yields the same counter.
pub proof fn lemma_bootstrap_settled(l: Seq<Seq<u8>>, c: nat)
    requires
        c <= u32::MAX,
        l.len() >= 1,
        forall|i: int| 0 <= i < l.len() ==> settled_names(c).contains(#[trigger] l[i]),
        l.contains(counter_name(c)),
    ensures
        spec_bootstrap(Some(l)) == Ok::<(u32, BootstrapActions), SequencerError>(
            (c as u32, BootstrapActions { create_directory: false, initialize: false }),
        ),
{
    lemma_lex_min_props(l);
    lemma_dec_seq_props(c);
    let m = lex_min_seq(l);
    let j = choose|j: int| 0 <= j < l.len() && l[j] == m;
    assert(settled_names(c).contains(m));
    if m != counter_name(c) {
        let k = choose|k: nat| k <= c && m == data_name(k);
        assert(m[0] == 0x64u8);
        assert(crate::digits::is_digit(counter_name(c)[0]));
        assert(lex_lt(counter_name(c), m));
        let i = choose|i: int| 0 <= i < l.len() && l[i] == counter_name(c);
        assert(false);
    }
    assert(spec_parse_counter(m) == Some(c as u32));
}

} // verus!
