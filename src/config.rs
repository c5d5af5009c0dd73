use vstd::prelude::*;
use crate::operation::{OperationDictionary, parse_token};

verus! {

/// The pieces of `s` between commas, in order: `"a,,b"` gives `"a"`, `""`,
/// `"b"`, and a string without commas gives itself.
pub open spec fn split_commas(s: Seq<char>) -> Seq<Seq<char>>
    decreases s.len(),
{
    if s.len() == 0 {
        seq![Seq::<char>::empty()]
    } else {
        let prev = split_commas(s.drop_last());
        if s.last() == ',' {
            prev.push(Seq::empty())
        } else {
            prev.update(prev.len() - 1, prev.last().push(s.last()))
        }
    }
}


/// Splits a list of operator symbols at its commas.
pub fn split_operations(text: &str) -> (r: Vec<String>)
    ensures
        r@.map_values(|t: String| t@) == split_commas(text@),
{
    let n = text.unicode_len();
    let mut tokens: Vec<String> = Vec::new();
    let mut start: usize = 0;
    let mut i: usize = 0;
    proof {
        assert(text@.subrange(0, 0) =~= Seq::<char>::empty());
        assert(tokens@.map_values(|t: String| t@).push(text@.subrange(0, 0)) =~= seq![Seq::<char>::empty()]);
    }
    while i < n
        invariant
            n == text@.len(),
            start <= i <= n,
            split_commas(text@.subrange(0, i as int)) == tokens@.map_values(|t: String| t@).push(text@.subrange(start as int, i as int)),
        decreases n - i,
    {
        let c = text.get_char(i);
        let ghost prev_tokens = tokens@.map_values(|t: String| t@);
        proof {
            assert(text@.subrange(0, i + 1).drop_last() =~= text@.subrange(0, i as int));
            assert(text@.subrange(0, i + 1).last() == c);
        }
        if c == ',' {
            let piece = String::from_str(text.substring_char(start, i));
            tokens.push(piece);
            proof {
                assert(tokens@.map_values(|t: String| t@) =~= prev_tokens.push(text@.subrange(start as int, i as int)));
                assert(text@.subrange(i + 1, i + 1) =~= Seq::<char>::empty());
                assert(split_commas(text@.subrange(0, i + 1)) == split_commas(text@.subrange(0, i as int)).push(Seq::empty()));
            }
            start = i + 1;
        } else {
            proof {
                let seg = text@.subrange(start as int, i as int);
                let prev = prev_tokens.push(seg);
                assert(text@.subrange(start as int, i + 1) =~= seg.push(c));
                assert(split_commas(text@.subrange(0, i + 1)) == prev.update(prev.len() - 1, prev.last().push(c)));
                assert(prev.update(prev.len() - 1, prev.last().push(c)) =~= prev_tokens.push(seg.push(c)));
            }
        }
        i += 1;
        proof {
            assert(text@.subrange(start as int, i as int).len() == i - start);
        }
    }
    let last = String::from_str(text.substring_char(start, n));
    let ghost before = tokens@.map_values(|t: String| t@);
    tokens.push(last);
    proof {
        assert(text@.subrange(0, n as int) =~= text@);
        assert(tokens@.map_values(|t: String| t@) =~= before.push(text@.subrange(start as int, n as int)));
    }
    tokens
}

/// The settings of a search.
pub struct Config {
    pub max_number: i64,
    pub max_size: usize,
    pub dictionary: OperationDictionary,
}

/// Why a configuration is refused.
pub enum ConfigError {
    /// The largest operand is not positive.
    NonPositiveMaxNumber(i64),
    /// Some token of the operator list is not `+`, `-`, `*` or `/`; holds all the tokens.
    UnrecognisedOperations(Vec<String>),
}

/// The operator list used when none is given.
pub open spec fn default_operations() -> Seq<char> {
    seq!['+', ',', '-', ',', '*', ',', '/']
}

/// The tokens of the operator list that a configuration reads.
pub open spec fn operation_tokens(operations: Option<Seq<char>>) -> Seq<Seq<char>> {
    match operations {
        Some(s) => split_commas(s),
        None => split_commas(default_operations()),
    }
}

pub open spec fn all_tokens_known(tokens: Seq<Seq<char>>) -> bool {
    forall|i: int| 0 <= i < tokens.len() ==> (#[trigger] parse_token(tokens[i])) is Some
}

pub open spec fn opt_view(s: Option<String>) -> Option<Seq<char>> {
    match s {
        Some(t) => Some(t@),
        None => None,
    }
}

/// Validates the settings. The operator list defaults to `+,-,*,/`.
pub fn configure(max_number: i64, max_size: usize, operations: Option<String>) -> (r: Result<Config, ConfigError>)
    ensures
        max_number <= 0 <==> r matches Err(ConfigError::NonPositiveMaxNumber(m)),
        r matches Err(ConfigError::NonPositiveMaxNumber(m)) ==> m == max_number,
        r matches Err(ConfigError::UnrecognisedOperations(tokens)) <==> max_number > 0
            && !all_tokens_known(operation_tokens(opt_view(operations))),
        r matches Err(ConfigError::UnrecognisedOperations(tokens)) ==> tokens@.map_values(|t: String| t@)
            == operation_tokens(opt_view(operations)),
        r matches Ok(c) ==> {
            &&& c.max_number == max_number
            &&& c.max_size == max_size
            &&& c.dictionary.operations@.len() == operation_tokens(opt_view(operations)).len()
            &&& forall|i: int| 0 <= i < c.dictionary.operations@.len() ==> Some(#[trigger] c.dictionary.operations@[i])
                == parse_token(operation_tokens(opt_view(operations))[i])
        },
{
    if max_number <= 0 {
        return Err(ConfigError::NonPositiveMaxNumber(max_number));
    }
    let text = match operations {
        Some(s) => s,
        None => {
            proof {
                reveal_strlit("+,-,*,/");
            }
            let d = String::from_str("+,-,*,/");
            proof {
                assert(d@ =~= default_operations());
            }
            d
        },
    };
    let tokens = split_operations(text.as_str());
    let ghost views = tokens@.map_values(|t: String| t@);
    match OperationDictionary::new(&tokens) {
        Some(dictionary) => {
            proof {
                assert forall|i: int| 0 <= i < dictionary.operations@.len() implies Some(#[trigger] dictionary.operations@[i])
                    == parse_token(views[i]) by {
                    assert(views[i] == tokens@[i]@);
                }
            }
            Ok(Config { max_number, max_size, dictionary })
        },
        None => {
            proof {
                assert(!all_tokens_known(views)) by {
                    let w = choose|i: int| 0 <= i < tokens@.len() && (#[trigger] parse_token(tokens@[i]@)) is None;
                    assert(views[w] == tokens@[w]@);
                }
            }
            Err(ConfigError::UnrecognisedOperations(tokens))
        },
    }
}

} // verus!
