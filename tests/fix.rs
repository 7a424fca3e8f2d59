use wdl::fix::Fixer;
use wdl::fix::InsertionPoint;
use wdl::fix::Replacement;

#[test]
fn test_fixer_insertion() {
    let value = String::from("hello");
    let insertion = String::from("world");
    let rep = Replacement::new(value.len(), value.len(), InsertionPoint::AfterEnd, insertion, 2);
    let rep2 = Replacement::new(5, 5, InsertionPoint::BeforeStart, String::from(" "), 1);

    let mut fixer = Fixer::new(value.clone());
    let mut fixer2 = Fixer::new(value);

    fixer.apply_replacement(&rep);
    fixer.apply_replacement(&rep2);
    assert_eq!(fixer.value(), "hello world");

    fixer2.apply_replacements(vec![rep, rep2]);
    assert_eq!(fixer2.value(), "hello world");
}

#[test]
fn test_fixer_deletion() {
    let value = String::from("My grammar is perfect.");
    let del = String::from("");
    let del2 = String::from("bad");
    let rep = Replacement::new(11, 14, InsertionPoint::BeforeStart, del, 2);
    let rep2 = Replacement::new(14, 21, InsertionPoint::AfterEnd, del2, 1);

    let mut fixer = Fixer::new(value.clone());
    let mut fixer2 = Fixer::new(value);

    fixer.apply_replacement(&rep);
    fixer.apply_replacement(&rep2);
    assert_eq!(fixer.value(), "My grammar bad.");

    fixer2.apply_replacements(vec![rep2, rep]);
    assert_eq!(fixer2.value(), "My grammar bad.");
}

#[test]
fn test_fixer_indel() {
    let value = String::from("This statement is false.");
    let del = String::from("");
    let ins = String::from("true");
    let rep = Replacement::new(18, 23, InsertionPoint::BeforeStart, del, 2);
    let rep2 = Replacement::new(18, 18, InsertionPoint::AfterEnd, ins, 1);

    let mut fixer = Fixer::new(value.clone());
    let mut fixer2 = Fixer::new(value);

    fixer.apply_replacement(&rep);
    fixer.apply_replacement(&rep2);
    assert_eq!(fixer.value(), "This statement is true.");

    fixer2.apply_replacements(vec![rep2, rep]);
    assert_eq!(fixer2.value(), "This statement is true.");
}

#[test]
fn replacement_getters_return_fields() {
    let rep = Replacement::new(3, 7, InsertionPoint::AfterEnd, String::from("xy"), 4);
    assert_eq!(rep.start(), 3);
    assert_eq!(rep.end(), 7);
    assert_eq!(rep.insertion_point(), InsertionPoint::AfterEnd);
    assert_eq!(rep.replacement(), "xy");
    assert_eq!(rep.precedence(), 4);
}

#[test]
fn fresh_fixer_transforms_identically() {
    let fixer = Fixer::new(String::from("abcdef"));
    for i in 0..=6 {
        assert_eq!(fixer.transform(i), i);
    }
    assert_eq!(fixer.value(), "abcdef");
}

#[test]
fn transform_counts_only_earlier_boundaries() {
    // Insert three characters before offset 2: offsets up to 2 stay, later
    // ones move by three.
    let mut fixer = Fixer::new(String::from("abcdef"));
    fixer.apply_replacement(&Replacement::new(2, 2, InsertionPoint::BeforeStart, String::from("XYZ"), 0));
    assert_eq!(fixer.value(), "abXYZcdef");
    assert_eq!(fixer.transform(0), 0);
    assert_eq!(fixer.transform(2), 2);
    assert_eq!(fixer.transform(3), 6);
    assert_eq!(fixer.transform(6), 9);
    assert_eq!(fixer.adj_range(1..4), 1..7);
    assert_eq!(fixer.adj_range_inc(3..=5), 6..=8);
}

#[test]
fn deletion_shifts_later_offsets_back() {
    let mut fixer = Fixer::new(String::from("0123456789"));
    fixer.apply_replacement(&Replacement::new(2, 5, InsertionPoint::BeforeStart, String::new(), 0));
    assert_eq!(fixer.value(), "0156789");
    assert_eq!(fixer.transform(5), 2);
    assert_eq!(fixer.transform(9), 6);
    assert_eq!(fixer.transform(1), 1);
}

#[test]
fn separated_replacements_in_either_order_match_right_to_left_splice() {
    let text = "one two three";
    let a = || Replacement::new(0, 3, InsertionPoint::BeforeStart, String::from("1"), 0);
    let b = || Replacement::new(8, 13, InsertionPoint::BeforeStart, String::from("THREE!"), 0);

    let mut f1 = Fixer::new(String::from(text));
    f1.apply_replacement(&a());
    f1.apply_replacement(&b());
    let mut f2 = Fixer::new(String::from(text));
    f2.apply_replacement(&b());
    f2.apply_replacement(&a());
    assert_eq!(f1.value(), "1 two THREE!");
    assert_eq!(f2.value(), "1 two THREE!");

    // By precedence, with the lower-precedence edit listed first.
    let mut f3 = Fixer::new(String::from(text));
    let mut hi = a();
    hi = Replacement::new(hi.start(), hi.end(), hi.insertion_point(), String::from(hi.replacement()), 5);
    f3.apply_replacements(vec![b(), hi]);
    assert_eq!(f3.value(), "1 two THREE!");
}

#[test]
fn equal_precedences_apply_in_given_order() {
    // Two insertions at the same place with equal precedence: the first
    // listed is applied first, the second lands before it.
    let mut fixer = Fixer::new(String::from("ab"));
    fixer.apply_replacements(vec![
        Replacement::new(1, 1, InsertionPoint::AfterEnd, String::from("X"), 1),
        Replacement::new(1, 1, InsertionPoint::AfterEnd, String::from("Y"), 1),
    ]);
    assert_eq!(fixer.value(), "aYXb");
}

#[test]
fn empty_replacement_list_changes_nothing() {
    let mut fixer = Fixer::new(String::from("unchanged"));
    fixer.apply_replacements(Vec::new());
    assert_eq!(fixer.value(), "unchanged");
    assert_eq!(fixer.transform(4), 4);
}

#[test]
fn three_separated_replacements_in_any_order() {
    let text = "alpha beta gamma delta";
    let reps = || {
        vec![
            Replacement::new(0, 5, InsertionPoint::BeforeStart, String::from("A"), 0),
            Replacement::new(6, 10, InsertionPoint::BeforeStart, String::from("BETA!"), 0),
            Replacement::new(17, 22, InsertionPoint::BeforeStart, String::new(), 0),
        ]
    };
    let orders: [[usize; 3]; 6] = [[0, 1, 2], [0, 2, 1], [1, 0, 2], [1, 2, 0], [2, 0, 1], [2, 1, 0]];
    for order in orders {
        let rs = reps();
        let mut fixer = Fixer::new(String::from(text));
        for k in order {
            fixer.apply_replacement(&rs[k]);
        }
        assert_eq!(fixer.value(), "A BETA! gamma ");
    }
}

#[test]
fn permuted_input_with_distinct_precedences_gives_same_text() {
    let text = "alpha beta gamma";
    let reps = || {
        vec![
            Replacement::new(0, 5, InsertionPoint::BeforeStart, String::from("A"), 3),
            Replacement::new(6, 10, InsertionPoint::BeforeStart, String::from("B"), 1),
            Replacement::new(11, 16, InsertionPoint::BeforeStart, String::from("C"), 2),
        ]
    };
    let mut f1 = Fixer::new(String::from(text));
    f1.apply_replacements(reps());
    let mut permuted = reps();
    permuted.reverse();
    let mut f2 = Fixer::new(String::from(text));
    f2.apply_replacements(permuted);
    assert_eq!(f1.value(), "A B C");
    assert_eq!(f2.value(), f1.value());
}

#[test]
fn fixer_clone_is_independent() {
    let mut f1 = Fixer::new(String::from("abc"));
    let f2 = f1.clone();
    f1.apply_replacement(&Replacement::new(0, 1, InsertionPoint::BeforeStart, String::from("X"), 0));
    assert_eq!(f1.value(), "Xbc");
    assert_eq!(f2.value(), "abc");
    assert_eq!(f2.transform(2), 2);
}
