use vstd::prelude::*;
use crate::errors::EmbedError;

verus! {

/// One candidate rule for choosing among a batch's named outputs.
#[derive(Clone, Debug)]
pub enum OutputKey {
    /// Matches iff the batch exposes exactly one named output, regardless
    /// of that output's name.
    OnlyOne,
    /// Matches iff an output with exactly this name is present.
    ByName(String),
}

/// The name sequence of a batch, as mathematical character sequences.
pub open spec fn name_views(names: Seq<String>) -> Seq<Seq<char>> {
    names.map_values(|s: String| s@)
}

/// Whether `key` matches a batch exposing exactly the given output names.
pub open spec fn key_matches(key: OutputKey, names: Seq<Seq<char>>) -> bool {
    match key {
        OutputKey::OnlyOne => names.len() == 1,
        OutputKey::ByName(n) => exists|i: int| 0 <= i < names.len() && names[i] == n@,
    }
}

/// Index of the first name equal to `target`, or `-1` if none is.
pub open spec fn first_name_index(names: Seq<Seq<char>>, target: Seq<char>) -> int
    decreases names.len(),
{
    if names.len() == 0 {
        -1
    } else if names[0] == target {
        0
    } else {
        let rest = first_name_index(names.drop_first(), target);
        if rest < 0 {
            -1
        } else {
            1 + rest
        }
    }
}

/// Index of the first key of `keys` that matches `names`, or `-1` if the
/// list is exhausted without a match.
pub open spec fn first_matching_key(keys: Seq<OutputKey>, names: Seq<Seq<char>>) -> int
    decreases keys.len(),
{
    if keys.len() == 0 {
        -1
    } else if key_matches(keys[0], names) {
        0
    } else {
        let rest = first_matching_key(keys.drop_first(), names);
        if rest < 0 {
            -1
        } else {
            1 + rest
        }
    }
}

/// The output index that a single matching key selects: the single output
/// for `OnlyOne`, the first output of that name for `ByName`.
pub open spec fn key_match_index(key: OutputKey, names: Seq<Seq<char>>) -> int {
    match key {
        OutputKey::OnlyOne => 0,
        OutputKey::ByName(n) => first_name_index(names, n@),
    }
}

/// The selection contract: evaluate keys left to right, first match wins;
/// the result is the selected output's index, or `None` if no key matches.
pub open spec fn spec_select(keys: Seq<OutputKey>, names: Seq<Seq<char>>) -> Option<int> {
    let k = first_matching_key(keys, names);
    if k < 0 {
        None
    } else {
        Some(key_match_index(keys[k], names))
    }
}

pub proof fn lemma_first_name_index_at(names: Seq<Seq<char>>, target: Seq<char>, i: int)
    requires
        0 <= i < names.len(),
        names[i] == target,
        forall|j: int| 0 <= j < i ==> names[j] != target,
    ensures
        first_name_index(names, target) == i,
    decreases i,
{
    if i == 0 {
    } else {
        assert(names[0] != target);
        lemma_first_name_index_at(names.drop_first(), target, i - 1);
    }
}

pub proof fn lemma_first_matching_key_none(keys: Seq<OutputKey>, names: Seq<Seq<char>>)
    requires
        forall|k: int| 0 <= k < keys.len() ==> !key_matches(keys[k], names),
    ensures
        first_matching_key(keys, names) == -1,
    decreases keys.len(),
{
    if keys.len() > 0 {
        assert(!key_matches(keys[0], names));
        lemma_first_matching_key_none(keys.drop_first(), names);
    }
}

pub proof fn lemma_first_matching_key_at(keys: Seq<OutputKey>, names: Seq<Seq<char>>, k: int)
    requires
        0 <= k < keys.len(),
        key_matches(keys[k], names),
        forall|j: int| 0 <= j < k ==> !key_matches(keys[j], names),
    ensures
        first_matching_key(keys, names) == k,
    decreases k,
{
    if k == 0 {
    } else {
        assert(!key_matches(keys[0], names));
        lemma_first_matching_key_at(keys.drop_first(), names, k - 1);
    }
}

pub proof fn lemma_first_name_index_exists(names: Seq<Seq<char>>, target: Seq<char>)
    requires
        exists|i: int| 0 <= i < names.len() && names[i] == target,
    ensures
        0 <= first_name_index(names, target) < names.len(),
        names[first_name_index(names, target)] == target,
    decreases names.len(),
{
    if names[0] == target {
    } else {
        let i = choose|i: int| 0 <= i < names.len() && names[i] == target;
        assert(names.drop_first()[i - 1] == target);
        lemma_first_name_index_exists(names.drop_first(), target);
    }
}

pub proof fn lemma_first_matching_key_range(keys: Seq<OutputKey>, names: Seq<Seq<char>>)
    requires
        first_matching_key(keys, names) >= 0,
    ensures
        first_matching_key(keys, names) < keys.len(),
        key_matches(keys[first_matching_key(keys, names)], names),
    decreases keys.len(),
{
    if keys.len() == 0 {
    } else if key_matches(keys[0], names) {
    } else {
        lemma_first_matching_key_range(keys.drop_first(), names);
    }
}

/// A successful selection always points at one of the given names.
pub proof fn lemma_select_index_in_range(keys: Seq<OutputKey>, names: Seq<Seq<char>>)
    requires
        spec_select(keys, names) is Some,
    ensures
        0 <= spec_select(keys, names).unwrap() < names.len(),
{
    let k = first_matching_key(keys, names);
    lemma_first_matching_key_range(keys, names);
    match keys[k] {
        OutputKey::OnlyOne => {},
        OutputKey::ByName(n) => {
            lemma_first_name_index_exists(names, n@);
        },
    }
}

/// An ordered, non-empty list of candidate output keys, evaluated left to
/// right; the first matching key wins.
pub struct OutputPrecedence {
    keys: Vec<OutputKey>,
}

impl View for OutputPrecedence {
    type V = Seq<OutputKey>;

    closed spec fn view(&self) -> Seq<OutputKey> {
        self.keys@
    }
}

impl OutputPrecedence {
    /// Build a precedence policy. A precedence list must be non-empty;
    /// an empty list is rejected.
    pub fn new(keys: Vec<OutputKey>) -> (r: Option<OutputPrecedence>)
        ensures
            keys@.len() > 0 ==> (r matches Some(p) && p@ == keys@),
            keys@.len() == 0 ==> r is None,
    {
        if keys.len() > 0 {
            Some(OutputPrecedence { keys })
        } else {
            None
        }
    }

    /// The number of keys in the list.
    pub fn len(&self) -> (n: usize)
        ensures
            n == self@.len(),
    {
        self.keys.len()
    }

    /// Evaluate the keys in order against the given output names; return
    /// the index of the selected output, exactly as `spec_select` says, or
    /// `SelectionFailure` if no key matches.
    pub fn select(&self, names: &Vec<String>) -> (r: Result<usize, EmbedError>)
        ensures
            match r {
                Ok(i) => spec_select(self@, name_views(names@)) == Some(i as int),
                Err(e) => spec_select(self@, name_views(names@)) is None
                    && e == EmbedError::SelectionFailure,
            },
    {
        let ghost nv = name_views(names@);
        let nkeys = self.keys.len();
        let mut k: usize = 0;
        while k < nkeys
            invariant
                nkeys == self@.len(),
                0 <= k <= nkeys,
                nv == name_views(names@),
                forall|j: int| 0 <= j < k ==> !key_matches(self@[j], nv),
            decreases nkeys - k,
        {
            match &self.keys[k] {
                OutputKey::OnlyOne => {
                    if names.len() == 1 {
                        proof {
                            assert(key_matches(self@[k as int], nv));
                            lemma_first_matching_key_at(self@, nv, k as int);
                        }
                        return Ok(0);
                    }
                    proof {
                        assert(!key_matches(self@[k as int], nv));
                    }
                },
                OutputKey::ByName(n) => {
                    let nnames = names.len();
                    let mut i: usize = 0;
                    while i < nnames
                        invariant
                            nkeys == self@.len(),
                            0 <= k < nkeys,
                            nnames == names@.len(),
                            0 <= i <= nnames,
                            nv == name_views(names@),
                            forall|j: int| 0 <= j < k ==> !key_matches(self@[j], nv),
                            self@[k as int] matches OutputKey::ByName(m) && m@ == n@,
                            forall|j: int| 0 <= j < i ==> nv[j] != n@,
                        decreases nnames - i,
                    {
                        if names[i] == *n {
                            proof {
                                assert(nv[i as int] == n@);
                                assert(key_matches(self@[k as int], nv));
                                lemma_first_matching_key_at(self@, nv, k as int);
                                lemma_first_name_index_at(nv, n@, i as int);
                            }
                            return Ok(i);
                        }
                        i += 1;
                    }
                    proof {
                        assert(forall|j: int| 0 <= j < nv.len() ==> nv[j] != n@);
                        assert(!key_matches(self@[k as int], nv));
                    }
                },
            }
            k += 1;
        }
        proof {
            lemma_first_matching_key_none(self@, nv);
        }
        Err(EmbedError::SelectionFailure)
    }
}

/// The default output precedence for a text-embedding model: a lone output
/// wins outright, then `text_embeds`, `last_hidden_state` and
/// `sentence_embedding` in that order. Verbose token-level outputs are
/// deliberately omitted, so that they are never picked up by accident.
pub fn default_output_precedence() -> (p: OutputPrecedence)
    ensures
        p@.len() == 4,
        p@[0] is OnlyOne,
        p@[1] matches OutputKey::ByName(n1) && n1@ == "text_embeds"@,
        p@[2] matches OutputKey::ByName(n2) && n2@ == "last_hidden_state"@,
        p@[3] matches OutputKey::ByName(n3) && n3@ == "sentence_embedding"@,
{
    let mut keys: Vec<OutputKey> = Vec::new();
    keys.push(OutputKey::OnlyOne);
    keys.push(OutputKey::ByName("text_embeds".to_owned()));
    keys.push(OutputKey::ByName("last_hidden_state".to_owned()));
    keys.push(OutputKey::ByName("sentence_embedding".to_owned()));
    OutputPrecedence { keys }
}

} // verus!

