//! What a binding to another language is told and gives back.
use vstd::prelude::*;
use vstd::string::*;
use crate::config::text;
use crate::config::text::is_word;
use crate::distance::single::F32;
use crate::graph::layered;

verus! {

/// How the vectors of a search are coded.
#[derive(Debug, Clone, Copy, PartialEq, Eq, Structural)]
pub enum Quant {
    /// A byte for each component.
    Sq8,
    /// Half a byte for each component.
    Sq4,
}

impl Quant {
    /// The coding with a name, whatever its case.
    pub open spec fn named(name: Seq<char>) -> Option<Quant> {
        if text::lowered_text(name) == "sq8"@ {
            Some(Quant::Sq8)
        } else if text::lowered_text(name) == "sq4"@ {
            Some(Quant::Sq4)
        } else {
            None
        }
    }

    /// The coding with a name, whatever its case; none for any other text.
    pub fn from_name(name: &str) -> (q: Option<Quant>)
        ensures
            q == Quant::named(name@),
    {
        let n: usize = name.unicode_len();
        assert(name@.subrange(0, n as int) =~= name@);
        if is_word(name, 0, n, "sq8") {
            Some(Quant::Sq8)
        } else if is_word(name, 0, n, "sq4") {
            Some(Quant::Sq4)
        } else {
            None
        }
    }
}

/// The ids of an answer in `k` places, zero where there are fewer.
pub open spec fn padded(ids: Seq<u32>, k: nat) -> Seq<usize> {
    Seq::new(
        k,
        |j: int|
            if j < ids.len() {
                ids[j] as usize
            } else {
                0usize
            },
    )
}

/// The ids of the first `i` answers, `k` places for each.
pub open spec fn flat(answers: Seq<Vec<(u32, F32)>>, k: nat, i: int) -> Seq<usize>
    decreases i,
{
    if i <= 0 {
        Seq::empty()
    } else {
        flat(answers, k, i - 1) + padded(layered::ids_of(answers[i - 1]@), k)
    }
}

/// The ids of answers as a table of `k` columns, zero where there are fewer.
pub fn flat_ids(answers: &Vec<Vec<(u32, F32)>>, k: usize) -> (ids: Vec<usize>)
    ensures
        ids@ == flat(answers@, k as nat, answers@.len() as int),
{
    let mut ids: Vec<usize> = Vec::new();
    let mut i: usize = 0;
    while i < answers.len()
        invariant
            i <= answers@.len(),
            ids@ == flat(answers@, k as nat, i as int),
        decreases answers@.len() - i,
    {
        let ghost row = padded(layered::ids_of(answers@[i as int]@), k as nat);
        let mut j: usize = 0;
        while j < k
            invariant
                i < answers@.len(),
                j <= k,
                row == padded(layered::ids_of(answers@[i as int]@), k as nat),
                ids@ == flat(answers@, k as nat, i as int) + row.take(j as int),
            decreases k - j,
        {
            if j < answers[i].len() {
                ids.push(answers[i][j].0 as usize);
            } else {
                ids.push(0);
            }
            j += 1;
            assert(ids@ =~= flat(answers@, k as nat, i as int) + row.take(j as int));
        }
        i += 1;
        assert(row.take(k as int) =~= row);
    }
    ids
}

} // verus!
