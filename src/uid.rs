use vstd::prelude::*;
use vstd::string::StringExecFns;

verus! {

/// An opaque identifier, compared by its underlying text.
#[derive(Debug, Hash)]
pub enum Uid {
    Value(String),
}

impl View for Uid {
    type V = Seq<char>;

    open spec fn view(&self) -> Seq<char> {
        match self {
            Uid::Value(s) => s@,
        }
    }
}

impl PartialEq for Uid {
    fn eq(&self, o: &Uid) -> (r: bool) {
        match (self, o) {
            (Uid::Value(a), Uid::Value(b)) => *a == *b,
        }
    }
}

impl vstd::std_specs::cmp::PartialEqSpecImpl for Uid {
    open spec fn obeys_eq_spec() -> bool {
        true
    }

    open spec fn eq_spec(&self, o: &Uid) -> bool {
        self@ == o@
    }
}

impl Eq for Uid {
}

impl Clone for Uid {
    fn clone(&self) -> (r: Uid)
        ensures
            r == *self,
    {
        match self {
            Uid::Value(s) => Uid::Value(s.clone()),
        }
    }
}

impl core::str::FromStr for Uid {
    type Err = String;

    fn from_str(s: &str) -> (r: Result<Uid, String>)
        ensures
            r is Ok && r->Ok_0@ == s@,
    {
        Ok(Uid::from_text(s))
    }
}

impl Default for Uid {
    fn default() -> (r: Uid)
        ensures
            r@.len() == UID_LEN,
    {
        Uid::new()
    }
}

/// Length of a freshly generated identifier.
pub const UID_LEN: usize = 128;

/// The characters a freshly generated identifier is drawn from.
pub open spec fn is_id_char(c: char) -> bool {
    ('a' <= c && c <= 'z') || ('A' <= c && c <= 'Z')
}

/// Relies on random_string::generate: a string of exactly `length`
/// characters, each taken from `charset`; it panics on an empty charset.
#[verifier::external_body]
fn generate_text(length: usize, charset: &str) -> (r: String)
    requires
        charset@.len() > 0,
    ensures
        r@.len() == length,
        forall|i: int| 0 <= i < length ==> charset@.contains(#[trigger] r@[i]),
{
    random_string::generate(length, charset)
}

/// The longest length among `ids` (zero for none).
pub open spec fn longest(ids: Seq<Seq<char>>) -> nat
    decreases ids.len(),
{
    if ids.len() == 0 {
        0
    } else {
        let rest = longest(ids.drop_last());
        if ids.last().len() > rest {
            ids.last().len()
        } else {
            rest
        }
    }
}

pub proof fn lemma_longest_bounds(ids: Seq<Seq<char>>)
    ensures
        forall|i: int| 0 <= i < ids.len() ==> (#[trigger] ids[i]).len() <= longest(ids),
    decreases ids.len(),
{
    if ids.len() > 0 {
        lemma_longest_bounds(ids.drop_last());
        assert forall|i: int| 0 <= i < ids.len() implies (#[trigger] ids[i]).len() <= longest(ids) by {
            if i < ids.len() - 1 {
                assert(ids.drop_last()[i] == ids[i]);
            }
        }
    }
}

impl Uid {
    /// A fresh random identifier of `UID_LEN` ASCII letters.
    pub fn new() -> (r: Uid)
        ensures
            r@.len() == UID_LEN,
            forall|i: int| 0 <= i < r@.len() ==> is_id_char(#[trigger] r@[i]),
    {
        let charset = "abcdefghijklmnopqrstuvwxyzABCDEFGHIJKLMNOPQRSTUVWXYZ";
        proof {
            reveal_strlit("abcdefghijklmnopqrstuvwxyzABCDEFGHIJKLMNOPQRSTUVWXYZ");
        }
        let s = generate_text(UID_LEN, charset);
        proof {
            assert forall|i: int| 0 <= i < s@.len() implies is_id_char(#[trigger] s@[i]) by {
                assert(charset@.contains(s@[i]));
                let j = choose|j: int| 0 <= j < charset@.len() && charset@[j] == s@[i];
                assert(is_id_char(charset@[j]));
            }
        }
        Uid::Value(s)
    }

    /// Builds an identifier from its text.
    pub fn from_text(s: &str) -> (r: Uid)
        ensures
            r@ == s@,
    {
        Uid::Value(String::from_str(s))
    }

    /// The identifier's text.
    pub fn as_text(&self) -> (r: String)
        ensures
            r@ == self@,
    {
        match self {
            Uid::Value(s) => s.clone(),
        }
    }

    /// Lengthens this identifier until it is longer than every id of `taken`,
    /// when it equals one of them; otherwise leaves it as it is.
    pub fn avoiding(self, taken: &Vec<Uid>) -> (r: Uid)
        ensures
            forall|i: int| 0 <= i < taken@.len() ==> taken@[i]@ != r@,
    {
        let ghost ids = taken@.map_values(|u: Uid| u@);
        proof {
            lemma_longest_bounds(ids);
        }
        let mut cand = self;
        let mut s = cand.as_text();
        while contains_id(taken, &cand)
            invariant
                ids == taken@.map_values(|u: Uid| u@),
                forall|i: int| 0 <= i < ids.len() ==> (#[trigger] ids[i]).len() <= longest(ids),
                s@ == cand@,
            decreases longest(ids) + 1 - cand@.len(),
        {
            proof {
                let j = choose|j: int| 0 <= j < taken@.len() && taken@[j]@ == cand@;
                assert(ids[j] == cand@);
            }
            s.append("a");
            proof {
                reveal_strlit("a");
            }
            cand = Uid::Value(s.clone());
        }
        cand
    }
}

/// Whether `id` occurs in `taken`.
pub fn contains_id(taken: &Vec<Uid>, id: &Uid) -> (r: bool)
    ensures
        r == exists|i: int| 0 <= i < taken@.len() && taken@[i]@ == id@,
{
    let mut k: usize = 0;
    while k < taken.len()
        invariant
            k <= taken@.len(),
            forall|i: int| 0 <= i < k ==> taken@[i]@ != id@,
        decreases taken@.len() - k,
    {
        if taken[k] == *id {
            return true;
        }
        k = k + 1;
    }
    false
}

} // verus!
