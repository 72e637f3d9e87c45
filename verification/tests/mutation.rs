use scrapmetal::{Everywhere, GenericTransform, Transformation, DiscardResults, Everything, Fold, GenericMutate, GenericQuery, MutateEverything, Mutation, Person, Query};

#[test]
fn mutating() {
    let mut set_char_to_a = Mutation::new(|c: &mut char| {
        *c = 'a';
        1
    });
    let mut char = 'b';
    assert_eq!(set_char_to_a.mutate(&mut char), 1);
    assert_eq!(char, 'a');

    let mut v = vec![1, 2, 3];
    assert_eq!(set_char_to_a.mutate(&mut v), 0);
}

#[test]
fn or_else_gives_its_default_for_other_types() {
    let mut double = Mutation::or_else(|| 7u32, |n: &mut u32| {
        *n *= 2;
        10u32
    });
    let mut n = 21u32;
    assert_eq!(double.mutate(&mut n), 10);
    assert_eq!(n, 42);

    let mut c = 'q';
    assert_eq!(double.mutate(&mut c), 7);
    assert_eq!(c, 'q');

    let mut wide = 21u64;
    assert_eq!(double.mutate(&mut wide), 7);
    assert_eq!(wide, 21);
}

#[test]
fn mutation_leaves_values_of_other_types_alone() {
    let mut clear = Mutation::new(|v: &mut Vec<u8>| {
        let n = v.len();
        v.clear();
        n
    });
    let mut bytes = vec![1u8, 2, 3];
    assert_eq!(clear.mutate(&mut bytes), 3);
    assert!(bytes.is_empty());

    let mut words = vec![1u16, 2, 3];
    assert_eq!(clear.mutate(&mut words), 0);
    assert_eq!(words, vec![1u16, 2, 3]);
}

#[test]
fn mutate_everything_reaches_nested_values() {
    let mutation = Mutation::new(|c: &mut char| *c = 'a');
    let mut everywhere = MutateEverything::new(mutation);
    let mut nested = vec![vec!['x', 'y'], vec![], vec!['z']];
    everywhere.mutate(&mut nested);
    assert_eq!(nested, vec![vec!['a', 'a'], vec![], vec!['a']]);
}

#[test]
fn mutate_everything_counts_with_a_fold() {
    let count_chars = Mutation::new(|_c: &mut char| 1usize);
    let mut count = MutateEverything::with_query(count_chars, |a: usize, b: usize| a + b);
    let mut nested = vec![vec!['x', 'y'], vec![], vec!['z']];
    assert_eq!(count.mutate(&mut nested), 3);
    assert_eq!(nested, vec![vec!['x', 'y'], vec![], vec!['z']]);
}

#[test]
fn mutate_everything_is_top_down_and_left_to_right() {
    let record = Mutation::or_else(Vec::new, |c: &mut char| {
        let seen = vec![*c];
        *c = c.to_ascii_uppercase();
        seen
    });
    let mut collect = MutateEverything::with_query(record, |mut a: Vec<char>, b: Vec<char>| {
        a.extend(b);
        a
    });
    let mut nested = vec![vec!['a', 'b'], vec!['c'], vec![], vec!['d', 'e']];
    assert_eq!(collect.mutate(&mut nested), vec!['a', 'b', 'c', 'd', 'e']);
    assert_eq!(nested, vec![vec!['A', 'B'], vec!['C'], vec![], vec!['D', 'E']]);
}

#[test]
fn mutate_everything_visits_the_parent_before_its_children() {
    let grow = Mutation::new(|v: &mut Vec<char>| {
        v.push('n');
        1usize
    });
    let mut grow_everywhere = MutateEverything::with_query(grow, |a: usize, b: usize| a + b);
    let mut nested = vec![vec!['o'], vec![]];
    assert_eq!(grow_everywhere.mutate(&mut nested), 2);
    assert_eq!(nested, vec![vec!['o', 'n'], vec!['n']]);

    let mark = Mutation::new(|c: &mut char| {
        *c = '*';
        1usize
    });
    let mut mark_everywhere = MutateEverything::with_query(mark, |a: usize, b: usize| a + b);
    assert_eq!(mark_everywhere.mutate(&mut nested), 3);
    assert_eq!(nested, vec![vec!['*', '*'], vec!['*']]);
}

#[test]
fn mutate_everything_on_a_leaf_is_one_mutation() {
    let bump = Mutation::new(|n: &mut i32| {
        *n += 1;
        *n
    });
    let mut bump_everywhere = MutateEverything::with_query(bump, |a: i32, b: i32| a * 100 + b);
    let mut n = 41i32;
    assert_eq!(bump_everywhere.mutate(&mut n), 42);
    assert_eq!(n, 42);
}

#[test]
fn mutate_everything_goes_through_options_and_boxes() {
    let add_one = Mutation::new(|n: &mut u64| {
        *n += 1;
        1u64
    });
    let mut add_everywhere = MutateEverything::with_query(add_one, |a: u64, b: u64| a + b);
    let mut values: Vec<Option<Box<u64>>> = vec![Some(Box::new(1)), None, Some(Box::new(9))];
    assert_eq!(add_everywhere.mutate(&mut values), 2);
    assert_eq!(values, vec![Some(Box::new(2)), None, Some(Box::new(10))]);
}

#[test]
fn mutate_everything_reaches_the_fields_of_a_person() {
    let rename = Mutation::new(|s: &mut &'static str| {
        if *s == "Amsterdam" {
            *s = "Utrecht";
        }
    });
    let mut move_everyone = MutateEverything::new(rename);
    let mut people = vec![
        Person("Ralf", "Amsterdam"),
        Person("Marlow", "Cambridge"),
        Person("Joost", "Amsterdam"),
    ];
    move_everyone.mutate(&mut people);
    assert_eq!(
        people,
        vec![
            Person("Ralf", "Utrecht"),
            Person("Marlow", "Cambridge"),
            Person("Joost", "Utrecht"),
        ]
    );
}

#[test]
fn mutate_everything_folds_names_in_order() {
    let names = Mutation::new(|s: &mut &'static str| s.len());
    let mut total = MutateEverything::with_query(names, |a: usize, b: usize| a + b);
    let mut person = Person("Ralf", "Amsterdam");
    assert_eq!(total.mutate(&mut person), 13);
    assert_eq!(person, Person("Ralf", "Amsterdam"));
}

#[test]
fn discard_results_joins_units() {
    let mut discard = DiscardResults;
    discard.fold((), ());
}

#[test]
fn mutate_everything_visits_every_value_once() {
    let one = Mutation::or_else(|| 1u64, |_c: &mut char| 1u64);
    let mut count = MutateEverything::with_query(one, |a: u64, b: u64| a + b);
    let mut nested = vec![vec!['x', 'y'], vec![], vec!['z']];
    // the outer vector, three inner vectors and three characters
    assert_eq!(count.mutate(&mut nested), 7);

    let mut empty: Vec<Vec<char>> = vec![];
    assert_eq!(count.mutate(&mut empty), 1);

    let mut nothing: Option<char> = None;
    assert_eq!(count.mutate(&mut nothing), 1);

    let mut something: Option<char> = Some('s');
    assert_eq!(count.mutate(&mut something), 2);
}

#[test]
fn mutate_everything_uses_the_default_where_nothing_matches() {
    let lengths = Mutation::or_else(|| 100usize, |s: &mut String| s.len());
    let mut longest = MutateEverything::with_query(lengths, |a: usize, b: usize| a.max(b));
    let mut numbers = vec![1u8, 2, 3];
    assert_eq!(longest.mutate(&mut numbers), 100);
    assert_eq!(numbers, vec![1u8, 2, 3]);
}

#[test]
fn query_reads_only_its_own_type() {
    let mut len = Query::new(|s: &String| s.len());
    assert_eq!(len.query(&String::from("abc")), 3);
    assert_eq!(len.query(&'x'), 0);

    let mut seven = Query::or_else(|| 7usize, |s: &String| s.len());
    assert_eq!(seven.query(&vec![1u8]), 7);
}

#[test]
fn everything_folds_query_results_in_pre_order() {
    let letters = Query::or_else(Vec::new, |c: &char| vec![*c]);
    let mut collect = Everything::new(letters, |mut a: Vec<char>, b: Vec<char>| {
        a.extend(b);
        a
    });
    let data = vec![Some(Box::new('a')), None, Some(Box::new('b'))];
    assert_eq!(collect.query(&data), vec!['a', 'b']);

    let one = Query::or_else(|| 1usize, |_c: &char| 1usize);
    let mut count = Everything::new(one, |a: usize, b: usize| a + b);
    // the vector, three options, two boxes and two characters
    assert_eq!(count.query(&data), 8);
}

#[test]
fn transformation_gives_back_values_of_other_types() {
    let mut upper = Transformation::new(|c: char| c.to_ascii_uppercase());
    assert_eq!(upper.transform('q'), 'Q');
    assert_eq!(upper.transform(vec!['q']), vec!['q']);
    assert_eq!(GenericTransform::transform(&mut upper, 'r'), 'R');
}

#[test]
fn everywhere_reaches_nested_values() {
    let double = Transformation::new(|n: u32| n * 2);
    let mut everywhere = Everywhere::new(double);
    let nested = vec![Some(Box::new(1u32)), None, Some(Box::new(21u32))];
    let out = everywhere.transform(nested);
    assert_eq!(out, vec![Some(Box::new(2u32)), None, Some(Box::new(42u32))]);
}

#[test]
fn everywhere_transforms_each_value_of_its_type() {
    let sum_into_last = Transformation::new(|mut v: Vec<u64>| {
        let total: u64 = v.iter().sum();
        v.push(total);
        v
    });
    let mut everywhere = Everywhere::new(sum_into_last);
    let out = everywhere.transform(vec![vec![1u64, 2], vec![]]);
    assert_eq!(out, vec![vec![1u64, 2, 3], vec![0]]);
}

#[test]
fn everywhere_reaches_the_fields_of_a_person() {
    let shout = Transformation::new(|s: &'static str| if s == "Amsterdam" { "AMSTERDAM" } else { s });
    let mut everywhere = Everywhere::new(shout);
    let people = vec![Person("Ralf", "Amsterdam"), Person("Blair", "London")];
    let out = everywhere.transform(people);
    assert_eq!(out, vec![Person("Ralf", "AMSTERDAM"), Person("Blair", "London")]);
}

