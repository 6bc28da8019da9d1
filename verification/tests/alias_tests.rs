use okapi::alias::{alias_iter, FileAlias, ALIAS_COUNT};

#[test]
fn alias_ranks_at_the_class_boundaries() {
    assert_eq!(FileAlias::nth(0).unwrap().val(), "A");
    assert_eq!(FileAlias::nth(25).unwrap().val(), "Z");
    assert_eq!(FileAlias::nth(26).unwrap().val(), "AA");
    assert_eq!(FileAlias::nth(27).unwrap().val(), "AB");
    assert_eq!(FileAlias::nth(701).unwrap().val(), "ZZ");
    assert_eq!(FileAlias::nth(702).unwrap().val(), "AAA");
    assert_eq!(FileAlias::nth(18277).unwrap().val(), "ZZZ");
}

#[test]
fn alias_ranks_run_out_after_the_last_token() {
    assert_eq!(ALIAS_COUNT, 26 + 26 * 26 + 26 * 26 * 26);
    assert!(FileAlias::nth(ALIAS_COUNT).is_none());
    assert!(FileAlias::nth(usize::MAX).is_none());
}

#[test]
fn alias_rank_is_the_inverse_of_nth() {
    for rank in 0..ALIAS_COUNT {
        let alias = FileAlias::nth(rank).unwrap();
        assert_eq!(alias.rank(), Some(rank));
    }
}

#[test]
fn alias_order_follows_the_ranks() {
    let mut previous = FileAlias::nth(0).unwrap();
    for rank in 1..ALIAS_COUNT {
        let alias = FileAlias::nth(rank).unwrap();
        assert!(previous.precedes(&alias));
        assert!(!alias.precedes(&previous));
        previous = alias;
    }
    assert!(!previous.precedes(&previous));
}

#[test]
fn shorter_aliases_come_first() {
    let z = FileAlias::from_str("Z");
    let aa = FileAlias::from_str("AA");
    let zz = FileAlias::from_str("ZZ");
    let aaa = FileAlias::from_str("AAA");
    assert!(z.precedes(&aa));
    assert!(zz.precedes(&aaa));
    assert!(!aa.precedes(&z));
    assert!(aa.precedes(&zz));
}

#[test]
fn alias_generator_starts_at_a_and_ends() {
    let mut it = alias_iter();
    assert_eq!(it.next().unwrap().val(), "A");
    assert_eq!(it.next().unwrap().val(), "B");
    let mut count = 2;
    let mut last = String::new();
    while let Some(alias) = it.next() {
        count += 1;
        last = alias.val();
    }
    assert_eq!(count, 18278);
    assert_eq!(last, "ZZZ");
    assert!(it.next().is_none());
    assert!(it.next().is_none());
}

#[test]
fn alias_generators_are_independent() {
    let mut first = alias_iter();
    first.next();
    first.next();
    let mut second = alias_iter();
    assert_eq!(second.next().unwrap().val(), "A");
    assert_eq!(first.next().unwrap().val(), "C");
}

#[test]
fn alias_from_chars_keeps_three() {
    assert_eq!(FileAlias::new(&['A']).val(), "A");
    assert_eq!(FileAlias::new(&['X', 'Y', 'Z']).val(), "XYZ");
    assert_eq!(FileAlias::new(&['A', 'B', 'C', 'D']).val(), "ABC");
    assert_eq!(FileAlias::new(&[]).val(), "");
}

#[test]
fn alias_from_str_keeps_three_bytes() {
    assert_eq!(FileAlias::from_str("AB").val(), "AB");
    assert_eq!(FileAlias::from_str("ABCD").val(), "ABC");
    assert_eq!(FileAlias::from_str("").val(), "");
    assert_eq!(FileAlias::from_str("AB"), FileAlias::new(&['A', 'B']));
    assert_ne!(FileAlias::from_str("AB"), FileAlias::from_str("ABC"));
}

#[test]
fn alias_val_decodes_lossily() {
    // The first three bytes of "é€" are 0xC3 0xA9 0xE2: one character and the
    // start of another.
    let alias = FileAlias::from_str("é€");
    assert_eq!(alias.val(), "é\u{FFFD}");
}

#[test]
fn alias_from_letters_takes_tokens_only() {
    assert_eq!(FileAlias::from_letters(&['Q', 'R']).unwrap().val(), "QR");
    assert!(FileAlias::from_letters(&[]).is_none());
    assert!(FileAlias::from_letters(&['a']).is_none());
    assert!(FileAlias::from_letters(&['A', 'B', 'C', 'D']).is_none());
    assert_eq!(FileAlias::from_str("ab").rank(), None);
    assert_eq!(FileAlias::from_letters(&['B']).unwrap().letters(), vec!['B']);
}

#[test]
fn comparison_operators_follow_the_alias_order() {
    let z = FileAlias::from_str("Z");
    let aa = FileAlias::from_str("AA");
    let ab = FileAlias::from_str("AB");
    assert!(z < aa);
    assert!(aa < ab);
    assert!(ab > z);
    assert!(aa <= aa);
    let mut all = vec![ab, z, aa, FileAlias::from_str("AAA"), FileAlias::from_str("B")];
    all.sort();
    let names: Vec<String> = all.iter().map(|a| a.val()).collect();
    assert_eq!(names, vec!["B", "Z", "AA", "AB", "AAA"]);
    assert_eq!(z.partial_cmp(&aa), Some(std::cmp::Ordering::Less));
    assert_eq!(aa.cmp(&aa), std::cmp::Ordering::Equal);
}
