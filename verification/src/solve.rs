//! The settings of one run of the solver.

use vstd::prelude::*;

verus! {

/// The search engine that carries out the branch and bound.
#[derive(Debug, Clone, Copy, PartialEq, Eq, Hash)]
pub enum SolverType {
    Classic,
    Hybrid,
}

/// What one run is asked to do: the instance to read, the greatest width of a
/// layer, the time allowed in seconds, the number of meta-destinations, and
/// whether the compression serves as a bound and as a decision heuristic.
#[derive(Debug, Clone)]
pub struct Solve {
    pub instance: String,
    pub width: usize,
    pub timeout: u64,
    pub n_meta_destinations: usize,
    pub compression_bound: bool,
    pub compression_heuristic: bool,
    pub solver: SolverType,
}

/// Tests whether two strings hold the same characters.
fn same_text(a: &str, b: &str) -> (r: bool)
    ensures
        r == (a@ == b@),
{
    let n: usize = a.unicode_len();
    if n != b.unicode_len() {
        return false;
    }
    let mut i: usize = 0;
    while i < n
        invariant
            i <= n,
            n == a@.len(),
            n == b@.len(),
            forall|j: int| 0 <= j < i ==> a@[j] == b@[j],
        decreases n - i,
    {
        if a.get_char(i) != b.get_char(i) {
            return false;
        }
        i += 1;
    }
    assert(a@ =~= b@);
    true
}

impl SolverType {
    /// The name by which the solver is chosen.
    pub open spec fn name(self) -> Seq<char> {
        match self {
            SolverType::Classic => "classic"@,
            SolverType::Hybrid => "hybrid"@,
        }
    }

    /// The solver that `text` names, if it names one.
    pub open spec fn named(text: Seq<char>) -> Option<SolverType> {
        if text == "classic"@ {
            Some(SolverType::Classic)
        } else if text == "hybrid"@ {
            Some(SolverType::Hybrid)
        } else {
            None
        }
    }

    /// Reads the name of a solver. Any other text is refused with a message
    /// that lists the names.
    pub fn from_str(s: &str) -> (r: Result<SolverType, &'static str>)
        ensures
            match Self::named(s@) {
                Some(t) => r == Ok::<SolverType, &'static str>(t),
                None => r is Err && r->Err_0@ == "The only supported frontier types are 'classic' and 'hybrid'"@,
            },
    {
        if same_text(s, "classic") {
            Ok(SolverType::Classic)
        } else if same_text(s, "hybrid") {
            Ok(SolverType::Hybrid)
        } else {
            Err("The only supported frontier types are 'classic' and 'hybrid'")
        }
    }

    /// The name of the solver, as `from_str` reads it.
    pub fn to_string(&self) -> (r: String)
        ensures
            r@ == self.name(),
    {
        match self {
            SolverType::Classic => "classic".to_owned(),
            SolverType::Hybrid => "hybrid".to_owned(),
        }
    }
}

/// A solver is read back from its own name.
pub proof fn lemma_name_round_trip(t: SolverType)
    ensures
        SolverType::named(t.name()) == Some(t),
{
    reveal_strlit("classic");
    reveal_strlit("hybrid");
    if "classic"@ == "hybrid"@ {
        assert("classic"@.len() == 7);
        assert("hybrid"@.len() == 6);
    }
}

} // verus!
