use parenthesize::{
    calculate_parenthesisations, configure, eval, make_options, next_operands, next_operators, render, search,
    split_operations, BinaryNode, ConfigError, Node, NumNode, Operation, OperationDictionary, ResultTable,
};
use std::collections::{BTreeMap, BTreeSet};

fn run(max_number: i64, max_size: usize, operations: Option<&str>) -> ResultTable {
    let config = match configure(max_number, max_size, operations.map(|s| s.to_string())) {
        Ok(c) => c,
        Err(_) => panic!("configuration refused"),
    };
    search(config.max_number, config.max_size, &config.dictionary)
}

fn entry(table: &ResultTable, v: i64) -> Option<(usize, Vec<String>)> {
    table.lookup(v).map(|e| (e.size, e.expressions.clone()))
}

fn strings(list: &[&str]) -> Vec<String> {
    list.iter().map(|s| s.to_string()).collect()
}

/// Evaluates a fully parenthesised text on its own; `None` on a division by zero.
fn reparse(text: &[u8], pos: &mut usize) -> Option<i64> {
    if text[*pos] == b'(' {
        *pos += 1;
        let l = reparse(text, pos)?;
        let op = text[*pos];
        *pos += 1;
        let r = reparse(text, pos)?;
        assert_eq!(text[*pos], b')');
        *pos += 1;
        match op {
            b'+' => l.checked_add(r),
            b'-' => l.checked_sub(r),
            b'*' => l.checked_mul(r),
            b'/' => {
                if r == 0 {
                    None
                } else {
                    l.checked_div(r)
                }
            }
            _ => panic!("unknown operator"),
        }
    } else {
        let mut v: i64 = 0;
        while *pos < text.len() && text[*pos].is_ascii_digit() {
            v = v * 10 + (text[*pos] - b'0') as i64;
            *pos += 1;
        }
        Some(v)
    }
}

fn reparse_all(text: &str) -> Option<i64> {
    let mut pos = 0;
    let v = reparse(text.as_bytes(), &mut pos);
    assert_eq!(pos, text.len());
    v
}

fn leaves(text: &str) -> usize {
    text.matches(|c: char| c.is_ascii_digit()).count()
}

#[test]
fn shape_counts_are_catalan() {
    let expected = [1usize, 1, 2, 5, 14, 42];
    for (i, want) in expected.iter().enumerate() {
        let c = make_options(i + 1);
        assert_eq!(c.alternatives.len(), *want);
        assert_eq!(c.ints.len(), i + 1);
        assert_eq!(c.ops.len(), i);
    }
}

#[test]
fn sub_range_shapes() {
    let mut nodes: Vec<Node> = (0..4).map(|i| Node::Num(NumNode::new(i))).collect();
    let roots = calculate_parenthesisations(1, 4, &mut nodes);
    assert_eq!(roots.len(), 2);
    let ints = vec![9, 1, 2, 3];
    let ops = vec![Operation::Add, Operation::Sub, Operation::Mult];
    let texts: BTreeSet<String> = roots.iter().map(|r| render(&nodes, *r, &ints, &ops)).collect();
    let want: BTreeSet<String> = strings(&["((1-2)*3)", "(1-(2*3))"]).into_iter().collect();
    assert_eq!(texts, want);
}

#[test]
fn single_operands_up_to_five() {
    let t = run(5, 1, None);
    for v in 1..=5i64 {
        assert_eq!(entry(&t, v), Some((1, vec![v.to_string()])));
    }
    assert_eq!(t.max_observed, 5);
    assert_eq!(entry(&t, 6), None);
    assert_eq!(t.entries.len(), 5);
}

#[test]
fn addition_of_two_operands() {
    let t = run(2, 2, Some("+"));
    let keys: BTreeSet<i64> = t.entries.keys().cloned().collect();
    assert_eq!(keys, [1, 2, 3, 4].into_iter().collect());
    assert_eq!(entry(&t, 1), Some((1, strings(&["1"]))));
    assert_eq!(entry(&t, 2), Some((1, strings(&["2"]))));
    let (s3, e3) = entry(&t, 3).unwrap();
    assert_eq!(s3, 2);
    assert!(e3.contains(&"(1+2)".to_string()));
    assert_eq!(entry(&t, 4), Some((2, strings(&["(2+2)"]))));
    assert_eq!(t.max_observed, 4);
}

#[test]
fn eight_from_three_twos() {
    let t = run(2, 3, Some("+,*"));
    let (s, e) = entry(&t, 8).unwrap();
    assert_eq!(s, 3);
    assert!(e.contains(&"(2*(2*2))".to_string()));
    assert!(e.contains(&"((2*2)*2)".to_string()));
}

#[test]
fn search_is_repeatable() {
    let a = run(3, 3, None);
    let b = run(3, 3, None);
    assert_eq!(a.max_observed, b.max_observed);
    for v in -40..=a.max_observed {
        assert_eq!(entry(&a, v), entry(&b, v));
    }
}

#[test]
fn every_text_evaluates_to_its_value() {
    let t = run(3, 3, None);
    for (v, e) in t.entries.iter() {
        assert!(!e.expressions.is_empty());
        let distinct: BTreeSet<&String> = e.expressions.iter().collect();
        assert_eq!(distinct.len(), e.expressions.len());
        for text in e.expressions.iter() {
            assert_eq!(reparse_all(text), Some(*v));
            assert_eq!(leaves(text), e.size);
        }
    }
}

#[test]
fn no_text_divides_by_zero() {
    let t = run(2, 3, Some("-,/"));
    for (_, e) in t.entries.iter() {
        for text in e.expressions.iter() {
            assert!(reparse_all(text).is_some());
            assert!(!text.contains("/(1-1)") && !text.contains("/(2-2)"));
        }
    }
    assert!(entry(&t, 0).is_some());
}

/// All values of every expression of each size, computed independently.
fn values_by_size(max_number: i64, max_size: usize, ops: &[char]) -> Vec<BTreeSet<i64>> {
    let mut by_size: Vec<BTreeSet<i64>> = vec![BTreeSet::new()];
    for size in 1..=max_size {
        let mut set = BTreeSet::new();
        if size == 1 {
            for d in 1..=max_number {
                set.insert(d);
            }
        } else {
            for split in 1..size {
                let left: Vec<i64> = by_size[split].iter().cloned().collect();
                let right: Vec<i64> = by_size[size - split].iter().cloned().collect();
                for l in left.iter() {
                    for r in right.iter() {
                        for op in ops {
                            let v = match op {
                                '+' => l.checked_add(*r),
                                '-' => l.checked_sub(*r),
                                '*' => l.checked_mul(*r),
                                _ => {
                                    if *r == 0 {
                                        None
                                    } else {
                                        l.checked_div(*r)
                                    }
                                }
                            };
                            if let Some(v) = v {
                                set.insert(v);
                            }
                        }
                    }
                }
            }
        }
        by_size.push(set);
    }
    by_size
}

#[test]
fn recorded_sizes_are_minimal() {
    let t = run(3, 3, None);
    let by_size = values_by_size(3, 3, &['+', '-', '*', '/']);
    let mut first: BTreeMap<i64, usize> = BTreeMap::new();
    for size in 1..=3 {
        for v in by_size[size].iter() {
            first.entry(*v).or_insert(size);
        }
    }
    assert_eq!(first.len(), t.entries.len());
    for (v, size) in first.iter() {
        assert_eq!(entry(&t, *v).map(|e| e.0), Some(*size));
    }
}

#[test]
fn refuses_non_positive_max_number() {
    assert!(matches!(configure(0, 3, None), Err(ConfigError::NonPositiveMaxNumber(0))));
    assert!(matches!(configure(-4, 3, None), Err(ConfigError::NonPositiveMaxNumber(-4))));
}

#[test]
fn refuses_unknown_operator() {
    match configure(3, 2, Some("+,%".to_string())) {
        Err(ConfigError::UnrecognisedOperations(tokens)) => assert_eq!(tokens, strings(&["+", "%"])),
        _ => panic!("expected an error"),
    }
    assert!(configure(3, 2, Some("+,,-".to_string())).is_err());
}

#[test]
fn default_operator_order() {
    let c = configure(4, 2, None).ok().unwrap();
    assert_eq!(c.dictionary.operations, vec![Operation::Add, Operation::Sub, Operation::Mult, Operation::Div]);
    assert_eq!(c.max_number, 4);
    assert_eq!(c.max_size, 2);
}

#[test]
fn splits_at_commas() {
    assert_eq!(split_operations("+,-,*"), strings(&["+", "-", "*"]));
    assert_eq!(split_operations("a,,b"), strings(&["a", "", "b"]));
    assert_eq!(split_operations(""), strings(&[""]));
    assert_eq!(split_operations("+,"), strings(&["+", ""]));
}

#[test]
fn dictionary_lookups() {
    let d = OperationDictionary::new(&strings(&["*", "+", "*"])).unwrap();
    assert_eq!(d.operation(1), Operation::Add);
    assert_eq!(d.index(&Operation::Mult), 2);
    assert_eq!(d.index(&Operation::Add), 1);
    assert_eq!(d.max_operation(), Operation::Mult);
    assert!(OperationDictionary::new(&strings(&["x"])).is_none());
}

#[test]
fn operator_results() {
    assert_eq!(Operation::Div.apply(-7, 2), Some(-3));
    assert_eq!(Operation::Div.apply(7, -2), Some(-3));
    assert_eq!(Operation::Div.apply(7, 0), None);
    assert_eq!(Operation::Add.apply(i64::MAX, 1), None);
    assert_eq!(Operation::Mult.apply(i64::MAX, 2), None);
    assert_eq!(Operation::Sub.apply(2, 5), Some(-3));
    assert_eq!(Operation::Mult.symbol(), "*");
}

#[test]
fn evaluates_and_renders_a_tree() {
    let mut nodes: Vec<Node> = (0..3).map(|i| Node::Num(NumNode::new(i))).collect();
    nodes.push(Node::Binary(BinaryNode::new(1, 2, 1)));
    nodes.push(Node::Binary(BinaryNode::new(0, 3, 0)));
    let ints = vec![12, 3, 4];
    let ops = vec![Operation::Div, Operation::Sub];
    assert_eq!(eval(&nodes, 4, &ints, &ops), Some(-12));
    assert_eq!(render(&nodes, 4, &ints, &ops), "(12/(3-4))");
    let ops2 = vec![Operation::Div, Operation::Add];
    assert_eq!(eval(&nodes, 4, &ints, &ops2), Some(1));
    let ints2 = vec![12, 4, 4];
    assert_eq!(eval(&nodes, 4, &ints2, &ops), None);
}

#[test]
fn odometers_step_and_wrap() {
    let mut ints = vec![2, 1];
    assert!(next_operands(&mut ints, 2));
    assert_eq!(ints, vec![1, 2]);
    assert!(next_operands(&mut ints, 2));
    assert_eq!(ints, vec![2, 2]);
    assert!(!next_operands(&mut ints, 2));
    assert_eq!(ints, vec![1, 1]);
    let mut ops = vec![0usize, 1];
    assert!(next_operators(&mut ops, 1));
    assert_eq!(ops, vec![1, 1]);
    assert!(!next_operators(&mut ops, 1));
    assert_eq!(ops, vec![0, 0]);
}

#[test]
fn empty_size_and_empty_dictionary() {
    let t = run(3, 0, None);
    assert!(t.entries.is_empty());
    assert_eq!(t.max_observed, 1);
    let d = OperationDictionary::new(&Vec::new()).unwrap();
    let t = search(3, 3, &d);
    assert_eq!(t.entries.len(), 3);
    assert_eq!(entry(&t, 3), Some((1, strings(&["3"]))));
}

#[test]
fn larger_values_keep_smallest_size() {
    let t = run(9, 2, Some("*"));
    assert_eq!(entry(&t, 81), Some((2, strings(&["(9*9)"]))));
    assert_eq!(entry(&t, 9).map(|e| e.0), Some(1));
    assert_eq!(t.max_observed, 81);
    let (s, e) = entry(&t, 12).unwrap();
    assert_eq!(s, 2);
    assert_eq!(e, strings(&["(6*2)", "(4*3)", "(3*4)", "(2*6)"]));
}

#[test]
fn repeated_operator_keeps_texts_once() {
    let once = run(2, 3, Some("+"));
    let twice = run(2, 3, Some("+,+"));
    assert_eq!(once.max_observed, twice.max_observed);
    for v in 1..=once.max_observed {
        assert_eq!(entry(&once, v), entry(&twice, v));
    }
    assert_eq!(entry(&twice, 6), Some((3, strings(&["(2+(2+2))", "((2+2)+2)"]))));
}
