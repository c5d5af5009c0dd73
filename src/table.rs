use vstd::prelude::*;
use std::collections::HashMap;

verus! {

broadcast use vstd::std_specs::hash::group_hash_axioms;

/// What the table holds for one value: the smallest size seen and the
/// distinct texts of that size.
pub struct Entry {
    pub size: usize,
    pub expressions: Vec<String>,
}

/// The texts of an entry, as character sequences.
pub open spec fn texts(e: Entry) -> Seq<Seq<char>> {
    e.expressions@.map_values(|s: String| s@)
}

/// Maps every value reached to its entry, and keeps the largest value reached
/// (at least 1).
pub struct ResultTable {
    pub entries: HashMap<i64, Entry>,
    pub max_observed: i64,
}

/// Tells whether `text` is among `list`.
fn contains_text(list: &Vec<String>, text: &String) -> (r: bool)
    ensures
        r <==> list@.map_values(|s: String| s@).contains(text@),
{
    let ghost view = list@.map_values(|s: String| s@);
    let mut k: usize = 0;
    while k < list.len()
        invariant
            k <= list@.len(),
            view == list@.map_values(|s: String| s@),
            forall|j: int| 0 <= j < k ==> view[j] != text@,
        decreases list@.len() - k,
    {
        if list[k] == *text {
            proof {
                assert(view[k as int] == text@);
            }
            return true;
        }
        k += 1;
    }
    false
}

/// The effect of recording that an expression of `size` operands with text
/// `text` evaluates to `value`.
pub open spec fn recorded(t: ResultTable, u: ResultTable, value: i64, size: usize, text: Seq<char>) -> bool {
    let m = t.entries@;
    let n = u.entries@;
    &&& u.max_observed == if value > t.max_observed { value } else { t.max_observed }
    &&& n.dom() == m.dom().insert(value)
    &&& forall|k: i64| k != value && #[trigger] m.contains_key(k) ==> n[k] == m[k]
    &&& !m.contains_key(value) || m[value].size > size ==> {
        &&& n[value].size == size
        &&& texts(n[value]) == seq![text]
    }
    &&& m.contains_key(value) && m[value].size == size ==> {
        &&& n[value].size == size
        &&& texts(n[value]) == if texts(m[value]).contains(text) {
            texts(m[value])
        } else {
            texts(m[value]).push(text)
        }
    }
    &&& m.contains_key(value) && m[value].size < size ==> n[value] == m[value]
}

impl ResultTable {
    /// An empty table.
    pub fn new() -> (t: ResultTable)
        ensures
            t.entries@ == Map::<i64, Entry>::empty(),
            t.max_observed == 1,
    {
        ResultTable { entries: HashMap::new(), max_observed: 1 }
    }

    /// The entry of a value, if it was reached.
    pub fn lookup(&self, value: i64) -> (r: Option<&Entry>)
        ensures
            r is Some <==> self.entries@.contains_key(value),
            r matches Some(e) ==> *e == self.entries@[value],
    {
        self.entries.get(&value)
    }

    /// Records that an expression of `size` operands with text `text`
    /// evaluates to `value`. A value seen for the first time, or only at a
    /// larger size so far, gets a fresh entry; at the stored size the text is
    /// added unless already present; at a larger size nothing changes.
    pub fn record(&mut self, value: i64, size: usize, text: String)
        ensures
            recorded(*old(self), *final(self), value, size, text@),
    {
        if value > self.max_observed {
            self.max_observed = value;
        }
        let stored: Option<usize> = match self.entries.get(&value) {
            None => None,
            Some(e) => Some(e.size),
        };
        match stored {
            Some(s) if s < size => {},
            Some(s) if s == size => {
                let e = self.entries.remove(&value);
                match e {
                    Some(mut e) => {
                        if !contains_text(&e.expressions, &text) {
                            let ghost before = texts(e);
                            e.expressions.push(text);
                            proof {
                                assert(texts(e) =~= before.push(text@));
                            }
                        }
                        self.entries.insert(value, e);
                    },
                    None => {},
                }
            },
            _ => {
                let expressions = vec![text];
                proof {
                    assert(expressions@.map_values(|s: String| s@) =~= seq![expressions@[0]@]);
                }
                self.entries.insert(value, Entry { size, expressions });
            },
        }
        proof {
            assert(final(self).entries@.dom() =~= old(self).entries@.dom().insert(value));
        }
    }
}

} // verus!
