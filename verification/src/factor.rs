//! Factoring a number: the results, and the two entry points.

use crate::clock::Timer;
use crate::number::is_prime;
use crate::outcome::{
    as_nats, can_time_out_at, full_outcome, is_outcome, lemma_unconverged_candidate, Outcome,
};
use crate::search::Search;
use crate::text::{decimal_text, to_decimal};
use std::time::Duration;
use vstd::prelude::*;

verus! {

/// A number's place among the primes and composites.
#[derive(Debug, PartialEq, Eq)]
pub enum Factor {
    /// The number is prime.
    Prime(u64),
    /// The number is composite: its prime factors, with multiplicity, least
    /// first.
    Composite(Vec<u64>),
}

/// Why a number was not factored.
#[derive(Debug, PartialEq, Eq)]
pub enum FactorError {
    /// The number is 0 or 1, which have no prime factorization.
    NeitherPrimeNorComposite(u64),
    /// The deadline passed before the search was over. Holds the factors
    /// found until then, or `None` if none had been found.
    Timeout(Option<Vec<u64>>),
}

impl View for Factor {
    type V = Outcome;

    open spec fn view(&self) -> Outcome {
        match *self {
            Factor::Prime(n) => Outcome::Prime(n as nat),
            Factor::Composite(list) => Outcome::Composite(as_nats(list@)),
        }
    }
}

impl View for FactorError {
    type V = Outcome;

    open spec fn view(&self) -> Outcome {
        match *self {
            FactorError::NeitherPrimeNorComposite(n) => Outcome::DomainError(n as nat),
            FactorError::Timeout(None) => Outcome::Timeout(None),
            FactorError::Timeout(Some(list)) => Outcome::Timeout(Some(as_nats(list@))),
        }
    }
}

/// The numbers of `list` in decimal, each followed by a space.
pub open spec fn listed(list: Seq<u64>) -> Seq<char>
    decreases list.len(),
{
    if list.len() == 0 {
        Seq::empty()
    } else {
        listed(list.drop_last()) + decimal_text(list.last() as nat) + " "@
    }
}

/// Appends the numbers of `list` to `text`, each followed by a space.
fn append_listed(text: &mut String, list: &Vec<u64>)
    ensures
        final(text)@ == old(text)@ + listed(list@),
{
    let ghost before = text@;
    let mut i: usize = 0;
    proof {
        assert(list@.take(0) =~= Seq::<u64>::empty());
        assert(before + listed(list@.take(0)) =~= before);
    }
    while i < list.len()
        invariant
            i <= list.len(),
            text@ == before + listed(list@.take(i as int)),
        decreases list.len() - i,
    {
        let number = to_decimal(list[i]);
        proof {
            let longer = list@.take(i + 1);
            assert(longer.drop_last() =~= list@.take(i as int));
            assert(before + listed(longer) =~= before + listed(list@.take(i as int))
                + decimal_text(list[i as int] as nat) + " "@);
        }
        text.append(number.as_str());
        text.append(" ");
        i += 1;
    }
    proof {
        assert(list@.take(i as int) =~= list@);
    }
}

impl Factor {
    /// What the user is told of the result.
    pub open spec fn message_text(self) -> Seq<char> {
        match self {
            Factor::Prime(prime) => "Prime: "@ + decimal_text(prime as nat),
            Factor::Composite(factors) => "Found: "@ + listed(factors@),
        }
    }

    /// What the user is told of the result: a prime after `Prime: `, the
    /// factors of a composite after `Found: `, each followed by a space.
    pub fn message(&self) -> (text: String)
        ensures
            text@ == self.message_text(),
    {
        match self {
            Factor::Prime(prime) => {
                let mut text = "Prime: ".to_owned();
                let number = to_decimal(*prime);
                text.append(number.as_str());
                text
            },
            Factor::Composite(factors) => {
                let mut text = "Found: ".to_owned();
                append_listed(&mut text, factors);
                text
            },
        }
    }
}

impl FactorError {
    /// What the user is told of the error.
    pub open spec fn message_text(self) -> Seq<char> {
        match self {
            FactorError::NeitherPrimeNorComposite(n) => "InvalidNumber: "@ + decimal_text(n as nat)
                + " is neither prime nor composite"@,
            FactorError::Timeout(None) => "Timeout: no factors found"@,
            FactorError::Timeout(Some(factors)) => "Timeout: found so far: "@ + listed(factors@),
        }
    }

    /// What the user is told of the error. A timeout lists the factors found
    /// until then, each followed by a space.
    pub fn message(&self) -> (text: String)
        ensures
            text@ == self.message_text(),
    {
        match self {
            FactorError::NeitherPrimeNorComposite(n) => {
                let mut text = "InvalidNumber: ".to_owned();
                let number = to_decimal(*n);
                text.append(number.as_str());
                text.append(" is neither prime nor composite");
                text
            },
            FactorError::Timeout(None) => "Timeout: no factors found".to_owned(),
            FactorError::Timeout(Some(factors)) => {
                let mut text = "Timeout: found so far: ".to_owned();
                append_listed(&mut text, factors);
                text
            },
        }
    }
}

/// The content of a result of either kind.
pub open spec fn outcome_of(result: Result<Factor, FactorError>) -> Outcome {
    match result {
        Ok(factor) => factor@,
        Err(error) => error@,
    }
}

/// Factors `n` by trial division, with no limit on the time it takes.
///
/// 0 and 1 are refused. A prime comes back as such, a composite with its
/// prime factors, least first and each as often as it divides `n`.
pub fn trial_division(n: u64) -> (result: Result<Factor, FactorError>)
    ensures
        outcome_of(result) == full_outcome(n as nat),
{
    factor(n, None)
}

/// Factors `n` by trial division, within `deadline` if there is one.
///
/// The deadline runs from the moment the search begins. The clock is read
/// once before each candidate, never while a candidate is being divided out:
/// a search that is cut short has found every prime factor below the
/// candidate it stopped at, and reports those. Without a deadline the search
/// always runs to its end.
pub fn factor(n: u64, deadline: Option<Duration>) -> (result: Result<Factor, FactorError>)
    ensures
        is_outcome(n as nat, deadline is Some, outcome_of(result)),
        deadline is None ==> outcome_of(result) == full_outcome(n as nat),
        n < 2 ==> result == Err::<Factor, FactorError>(FactorError::NeitherPrimeNorComposite(n)),
{
    if n == 0 || n == 1 {
        return Err(FactorError::NeitherPrimeNorComposite(n));
    }
    if n == 2 {
        assert(is_prime(2));
        return Ok(Factor::Prime(n));
    }
    let timer: Option<Timer> = match &deadline {
        Some(limit) => Some(Timer::start(limit)),
        None => None,
    };
    let mut search = Search::start(n);
    while !search.converged()
        invariant
            search.wf(),
            search.target() == n,
            search.candidate() <= 0x1_0000_0001,
            deadline is None ==> timer is None,
        decreases 0x1_0000_0001 - search.candidate(),
    {
        proof {
            lemma_unconverged_candidate(search.target(), search.candidate());
        }
        if let Some(running) = &timer {
            if running.expired() {
                assert(can_time_out_at(n as nat, search.candidate()));
                return Err(search.interrupt());
            }
        }
        search.step();
    }
    Ok(search.finish())
}

} // verus!
