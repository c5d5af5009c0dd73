use vstd::prelude::*;

verus! {

/// A binary arithmetic operator.
#[derive(PartialEq, Eq, Structural, Clone, Copy, Debug)]
pub enum Operation {
    Add,
    Mult,
    Div,
    Sub,
}

/// The symbol of an operator.
pub open spec fn symbol_of(op: Operation) -> char {
    match op {
        Operation::Add => '+',
        Operation::Sub => '-',
        Operation::Mult => '*',
        Operation::Div => '/',
    }
}

/// The operator that a one-character token names, if any.
pub open spec fn parse_token(t: Seq<char>) -> Option<Operation> {
    if t == seq!['+'] {
        Some(Operation::Add)
    } else if t == seq!['-'] {
        Some(Operation::Sub)
    } else if t == seq!['*'] {
        Some(Operation::Mult)
    } else if t == seq!['/'] {
        Some(Operation::Div)
    } else {
        None
    }
}

/// Division that truncates toward zero.
pub open spec fn trunc_div(x: int, d: int) -> int {
    let q = abs(x) / abs(d);
    if (x < 0) != (d < 0) {
        -q
    } else {
        q
    }
}

pub open spec fn abs(x: int) -> int {
    if x < 0 {
        -x
    } else {
        x
    }
}

pub open spec fn fits_i64(x: int) -> bool {
    i64::MIN <= x <= i64::MAX
}

/// The exact result of an operator on two integers; `None` for a division by zero.
pub open spec fn apply_exact(op: Operation, l: int, r: int) -> Option<int> {
    match op {
        Operation::Add => Some(l + r),
        Operation::Sub => Some(l - r),
        Operation::Mult => Some(l * r),
        Operation::Div => if r == 0 {
            None
        } else {
            Some(trunc_div(l, r))
        },
    }
}

/// The result as a machine value: undefined when the exact result leaves `i64`.
pub open spec fn apply_spec(op: Operation, l: int, r: int) -> Option<int> {
    match apply_exact(op, l, r) {
        Some(v) => if fits_i64(v) {
            Some(v)
        } else {
            None
        },
        None => None,
    }
}

impl Operation {
    /// The symbol of this operator as a string of one character.
    pub fn symbol(&self) -> (r: &'static str)
        ensures
            r@ == seq![symbol_of(*self)],
    {
        match self {
            Operation::Add => {
                proof {
                    reveal_strlit("+");
                }
                "+"
            },
            Operation::Sub => {
                proof {
                    reveal_strlit("-");
                }
                "-"
            },
            Operation::Mult => {
                proof {
                    reveal_strlit("*");
                }
                "*"
            },
            Operation::Div => {
                proof {
                    reveal_strlit("/");
                }
                "/"
            },
        }
    }

    /// Applies the operator; `None` on a division by zero or when the result
    /// does not fit in `i64`.
    pub fn apply(&self, l: i64, r: i64) -> (res: Option<i64>)
        ensures
            res matches Some(v) ==> apply_spec(*self, l as int, r as int) == Some(v as int),
            res is None ==> apply_spec(*self, l as int, r as int) is None,
    {
        match self {
            Operation::Add => l.checked_add(r),
            Operation::Sub => l.checked_sub(r),
            Operation::Mult => l.checked_mul(r),
            Operation::Div => l.checked_div(r),
        }
    }
}

/// The operators that a search may use, in the order in which it tries them.
pub struct OperationDictionary {
    pub operations: Vec<Operation>,
}

/// Tells whether a token names an operator.
fn parse_operation(token: &String) -> (r: Option<Operation>)
    ensures
        r == parse_token(token@),
{
    let s = token.as_str();
    if s.unicode_len() != 1 {
        return None;
    }
    let c = s.get_char(0);
    proof {
        assert(s@.len() == 1);
        assert(s@ =~= seq![c]);
    }
    if c == '+' {
        Some(Operation::Add)
    } else if c == '-' {
        Some(Operation::Sub)
    } else if c == '*' {
        Some(Operation::Mult)
    } else if c == '/' {
        Some(Operation::Div)
    } else {
        proof {
            assert(s@ != seq!['+']);
            assert(s@ != seq!['-']);
            assert(s@ != seq!['*']);
            assert(s@ != seq!['/']);
        }
        None
    }
}

impl OperationDictionary {
    /// Builds the dictionary from operator tokens, kept in their order;
    /// `None` when some token is not one of `+`, `-`, `*`, `/`.
    pub fn new(options: &Vec<String>) -> (r: Option<OperationDictionary>)
        ensures
            r is Some <==> forall|i: int| 0 <= i < options@.len() ==> (#[trigger] parse_token(options@[i]@)) is Some,
            r matches Some(d) ==> d.operations@.len() == options@.len() && forall|i: int|
                0 <= i < options@.len() ==> Some(#[trigger] d.operations@[i]) == parse_token(options@[i]@),
    {
        let mut operations: Vec<Operation> = Vec::new();
        let mut error = false;
        let mut k: usize = 0;
        while k < options.len()
            invariant
                k <= options@.len(),
                operations@.len() == k,
                error <==> exists|i: int| 0 <= i < k && (#[trigger] parse_token(options@[i]@)) is None,
                forall|i: int| 0 <= i < k && parse_token(options@[i]@) is Some ==> Some(#[trigger] operations@[i]) == parse_token(options@[i]@),
            decreases options@.len() - k,
        {
            match parse_operation(&options[k]) {
                Some(op) => operations.push(op),
                None => {
                    error = true;
                    operations.push(Operation::Add);
                },
            }
            k += 1;
        }
        if error {
            None
        } else {
            Some(OperationDictionary { operations })
        }
    }

    /// The operator at a position of the dictionary.
    pub fn operation(&self, index: usize) -> (r: Operation)
        requires
            index < self.operations@.len(),
        ensures
            r == self.operations@[index as int],
    {
        self.operations[index]
    }

    /// The last position at which an operator stands.
    pub fn index(&self, operation: &Operation) -> (r: usize)
        requires
            self.operations@.contains(*operation),
        ensures
            r < self.operations@.len(),
            self.operations@[r as int] == *operation,
            forall|j: int| r < j < self.operations@.len() ==> self.operations@[j] != *operation,
    {
        let mut k: usize = self.operations.len();
        while k > 0
            invariant
                k <= self.operations@.len(),
                self.operations@.contains(*operation),
                forall|j: int| k <= j < self.operations@.len() ==> self.operations@[j] != *operation,
            decreases k,
        {
            if self.operations[k - 1] == *operation {
                return k - 1;
            }
            k -= 1;
        }
        proof {
            let w = choose|j: int| 0 <= j < self.operations@.len() && self.operations@[j] == *operation;
            assert(self.operations@[w] == *operation);
        }
        0
    }

    /// The operator that the dictionary lists last.
    pub fn max_operation(&self) -> (r: Operation)
        requires
            self.operations@.len() > 0,
        ensures
            r == self.operations@.last(),
    {
        self.operations[self.operations.len() - 1]
    }
}

} // verus!
