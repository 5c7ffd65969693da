//! The record model and the domain operations on the collection.
//!
//! A [`Bird`] is one persisted entry.  The operations here work on the
//! in-memory collection; reading and writing the backing file is left to
//! the caller, which passes the loaded collection in and persists the
//! result (see [`crate::database`] for the on-disk form).

use vstd::prelude::*;

use rand::Rng;
use rand::distributions::Alphanumeric;

verus! {

/// One entry of the collection: identity, descriptive fields, and the
/// creation time as whole seconds since the Unix epoch.
#[derive(Debug)]
pub struct Bird {
    pub id: u64,
    pub name: String,
    pub species: String,
    pub age: u64,
    pub created_at: u64,
}

/// The mathematical value of a [`Bird`]: the same fields with the strings
/// as character sequences.
#[verifier::ext_equal]
pub struct BirdView {
    pub id: u64,
    pub name: Seq<char>,
    pub species: Seq<char>,
    pub age: u64,
    pub created_at: u64,
}

impl View for Bird {
    type V = BirdView;

    open spec fn view(&self) -> BirdView {
        BirdView {
            id: self.id,
            name: self.name@,
            species: self.species@,
            age: self.age,
            created_at: self.created_at,
        }
    }
}

impl Clone for Bird {
    fn clone(&self) -> (res: Self)
        ensures
            res == *self,
    {
        Bird {
            id: self.id,
            name: self.name.clone(),
            species: self.species.clone(),
            age: self.age,
            created_at: self.created_at,
        }
    }
}

/// A character the stored form can carry verbatim: anything but the two
/// characters that delimit or escape strings in the backing file.
pub open spec fn plain_char(c: char) -> bool {
    c != '"' && c != '\\'
}

pub open spec fn plain(s: Seq<char>) -> bool {
    forall|i: int| 0 <= i < s.len() ==> plain_char(#[trigger] s[i])
}

/// An ASCII letter or digit (code points of `A`-`Z`, `a`-`z`, `0`-`9`).
pub open spec fn is_alnum(c: char) -> bool {
    (65 <= c as u32 <= 90) || (97 <= c as u32 <= 122) || (48 <= c as u32 <= 57)
}

/// The fixed four-way species vocabulary of randomly generated records.
pub open spec fn species_vocab(s: Seq<char>) -> bool {
    s == "Kea"@ || s == "Kiwi"@ || s == "Fantail"@ || s == "Moa"@
}

/// A record the store can round-trip: both strings are plain.
pub open spec fn wf_bird(b: BirdView) -> bool {
    plain(b.name) && plain(b.species)
}

pub open spec fn wf_birds(s: Seq<BirdView>) -> bool {
    forall|i: int| 0 <= i < s.len() ==> wf_bird(#[trigger] s[i])
}

/// What always holds of a freshly generated record, whichever numbers the
/// generator draws.
pub open spec fn fresh_bird_ok(b: BirdView) -> bool {
    &&& b.id < 9999999
    &&& b.name.len() == 10
    &&& forall|i: int| 0 <= i < b.name.len() ==> is_alnum(#[trigger] b.name[i])
    &&& species_vocab(b.species)
    &&& 1 <= b.age < 15
    &&& wf_bird(b)
}

/// Relies on rand's `Rng::gen_range`: a draw uniform in `[low, high)`.
/// `gen_range` panics when `low >= high`, so that case is excluded here.
#[verifier::external_body]
fn random_in_range(low: u64, high: u64) -> (r: u64)
    requires
        low < high,
    ensures
        low <= r < high,
{
    rand::thread_rng().gen_range(low, high)
}

/// Relies on rand's `Alphanumeric` distribution: each sampled character is
/// one of `A`-`Z`, `a`-`z`, `0`-`9`.
#[verifier::external_body]
fn random_alnum_string(len: usize) -> (r: String)
    ensures
        r@.len() == len,
        forall|i: int| 0 <= i < r@.len() ==> is_alnum(#[trigger] r@[i]),
{
    rand::thread_rng().sample_iter(Alphanumeric).take(len).collect()
}

/// Relies on chrono's `Utc::now` and `DateTime::timestamp`: whole seconds
/// since the Unix epoch.  Nothing is assumed of the clock's value.
#[verifier::external_body]
fn now_timestamp() -> i64 {
    chrono::Utc::now().timestamp()
}

/// The current time as seconds since the epoch, clamped below at zero so
/// it fits the stored form.
pub fn current_timestamp() -> (t: u64) {
    let s = now_timestamp();
    if s < 0 {
        0
    } else {
        s as u64
    }
}

/// Synthesize one random record and append it to the collection.
///
/// The caller persists the grown collection; on dashboard scale the whole
/// collection travels through each operation.
pub fn add_random_bird(birds: &mut Vec<Bird>)
    ensures
        final(birds)@.len() == old(birds)@.len() + 1,
        final(birds)@ == old(birds)@.push(final(birds)@.last()),
        fresh_bird_ok(final(birds)@.last()@),
{
    let species_draw = random_in_range(0, 4);
    let species: &str = if species_draw == 0 {
        "Kea"
    } else if species_draw == 1 {
        "Kiwi"
    } else if species_draw == 2 {
        "Fantail"
    } else {
        "Moa"
    };
    let fresh = Bird {
        id: random_in_range(0, 9999999),
        name: random_alnum_string(10),
        species: species.to_owned(),
        age: random_in_range(1, 15),
        created_at: current_timestamp(),
    };
    proof {
        assert(plain(fresh.name@)) by {
            assert forall|i: int| 0 <= i < fresh.name@.len() implies plain_char(
                #[trigger] fresh.name@[i],
            ) by {
                assert(is_alnum(fresh.name@[i]));
            }
        }
        assert(plain(fresh.species@)) by {
            lemma_vocab_plain(fresh.species@);
        }
    }
    birds.push(fresh);
}

/// Every species name of the vocabulary is made of plain characters.
proof fn lemma_vocab_plain(s: Seq<char>)
    requires
        species_vocab(s),
    ensures
        plain(s),
{
    reveal_strlit("Kea");
    reveal_strlit("Kiwi");
    reveal_strlit("Fantail");
    reveal_strlit("Moa");
    assert forall|i: int| 0 <= i < s.len() implies plain_char(#[trigger] s[i]) by {
        if s == "Kea"@ {
            assert(s[i] == 'K' || s[i] == 'e' || s[i] == 'a');
        } else if s == "Kiwi"@ {
            assert(s[i] == 'K' || s[i] == 'i' || s[i] == 'w');
        } else if s == "Fantail"@ {
            assert(s[i] == 'F' || s[i] == 'a' || s[i] == 'n' || s[i] == 't' || s[i] == 'i'
                || s[i] == 'l');
        } else {
            assert(s[i] == 'M' || s[i] == 'o' || s[i] == 'a');
        }
    }
}

/// Remove the record at `selected` when that is a valid position; against
/// a stale index this is a silent no-op, never an error.
pub fn remove_bird(birds: &mut Vec<Bird>, selected: usize)
    ensures
        selected < old(birds)@.len() ==> final(birds)@ == old(birds)@.remove(selected as int),
        selected >= old(birds)@.len() ==> final(birds)@ == old(birds)@,
{
    if selected < birds.len() {
        birds.remove(selected);
    }
}

/// The size of the collection.
pub fn bird_count(birds: &Vec<Bird>) -> (n: usize)
    ensures
        n == birds@.len(),
{
    birds.len()
}

/// The record under the selection, if the selection is a valid position.
pub fn selected_bird(birds: &Vec<Bird>, selected: usize) -> (r: Option<Bird>)
    ensures
        selected < birds@.len() ==> r == Some(birds@[selected as int]),
        selected >= birds@.len() ==> r is None,
{
    if selected < birds.len() {
        Some(birds[selected].clone())
    } else {
        None
    }
}

} // verus!
