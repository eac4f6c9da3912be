use demystify::musdict::{merge_muscontexts, MusContext, MusDict};

#[test]
fn test_new() {
    let mus_dict = MusDict::new();
    assert!(mus_dict.entries().is_empty());
    assert_eq!(mus_dict.min(), None);
    assert!(mus_dict.is_empty());
}

#[test]
fn test_add_mus_existing_literal_smaller_length() {
    let mut mus_dict = MusDict::new();
    let lit = 1;
    let mus1 = vec![2, 3];
    let mus2 = vec![4];
    mus_dict.add_mus(lit, &mus1);
    mus_dict.add_mus(lit, &mus2);

    assert_eq!(mus_dict.min(), Some(1));
    assert!(!mus_dict.is_empty());
}

#[test]
fn test_add_mus_existing_literal_equal_length() {
    let mut mus_dict = MusDict::new();
    let lit = 1;
    let mus1 = vec![2, 3];
    let mus2 = vec![4, 5];
    mus_dict.add_mus(lit, &mus1);
    mus_dict.add_mus(lit, &mus2);
    let stored = mus_dict.get(lit).unwrap();
    assert_eq!(stored.len(), 2);
    assert_eq!(stored[0], MusContext::new(lit, &mus1));
    assert_eq!(stored[1], MusContext::new(lit, &mus2));
    assert_eq!(mus_dict.min(), Some(2));
    assert!(!mus_dict.is_empty());
}

#[test]
fn test_min_lit_existing_literal() {
    let mut mus_dict = MusDict::new();
    let lit = 1;
    let lit2 = 2;
    let mus1 = vec![2, 3];
    let mus2 = vec![4, 5];
    mus_dict.add_mus(lit, &mus1);
    mus_dict.add_mus(lit, &mus2);
    assert_eq!(mus_dict.min_lit(lit), Some(2));
    assert_eq!(mus_dict.min_lit(lit2), None);
}

#[test]
fn test_min_lit_non_existing_literal() {
    let mus_dict = MusDict::new();
    assert_eq!(mus_dict.min_lit(1), None);
}

#[test]
fn test_add_mus_existing_literal_larger_length() {
    let mut mus_dict = MusDict::new();
    let lit = 1;
    let mus1 = vec![2, 3];
    let mus2 = vec![4];
    mus_dict.add_mus(lit, &mus2);
    mus_dict.add_mus(lit, &mus1);
    let stored = mus_dict.get(lit).unwrap();
    assert_eq!(stored.len(), 1);
    assert_eq!(stored[0], MusContext::new(lit, &mus2));
    assert_eq!(mus_dict.min(), Some(1));
    assert!(!mus_dict.is_empty());
}

#[test]
fn test_add_mus_new_literal() {
    let mut mus_dict = MusDict::new();
    let lit1 = 1;
    let lit2 = 2;
    let mus1 = vec![3, 4];
    let mus2 = vec![5, 6];
    mus_dict.add_mus(lit1, &mus1);
    mus_dict.add_mus(lit2, &mus2);
    let stored1 = mus_dict.get(lit1).unwrap();
    assert_eq!(stored1.len(), 1);
    assert_eq!(stored1[0], MusContext::new(lit1, &mus1));
    assert_eq!(mus_dict.min(), Some(2));
    let stored2 = mus_dict.get(lit2).unwrap();
    assert_eq!(stored2.len(), 1);
    assert_eq!(stored2[0], MusContext::new(lit2, &mus2));
    assert_eq!(mus_dict.min(), Some(2));
    assert!(!mus_dict.is_empty());
}

#[test]
fn test_merge_muscontexts_empty() {
    let v: Vec<MusContext> = Vec::new();
    let result = merge_muscontexts(&v);
    assert_eq!(result.len(), 0);
}

#[test]
fn test_merge_muscontexts_single_entry() {
    let mc = MusContext::new(1, &vec![2, 3]);
    let v = vec![mc.clone()];

    let result = merge_muscontexts(&v);

    assert_eq!(result.len(), 1);
    assert_eq!(result[0], mc);
}

#[test]
fn test_merge_muscontexts_identical_mus() {
    let mus = vec![3, 4];
    let mc1 = MusContext::new(1, &mus);
    let mc2 = MusContext::new(2, &mus);

    let v = vec![mc1, mc2];
    let result = merge_muscontexts(&v);

    assert_eq!(result.len(), 1);
    assert_eq!(result[0].mus_len(), 2);
    assert_eq!(result[0].lits.len(), 2);
    assert!(result[0].lits.contains(&1));
    assert!(result[0].lits.contains(&2));
}

#[test]
fn test_merge_muscontexts_different_mus() {
    let mc1 = MusContext::new(1, &vec![2, 3]);
    let mc2 = MusContext::new(1, &vec![4, 5]);

    let v = vec![mc1, mc2];
    let result = merge_muscontexts(&v);

    assert_eq!(result.len(), 2);
    // The output is sorted by MUS, so the smaller MUS comes first.
    assert!(result[0].mus.contains(&2));
    assert!(result[1].mus.contains(&4));
}

#[test]
fn test_merge_muscontexts_complex_case() {
    let mus1 = vec![10, 11];
    let mus2 = vec![20, 21];

    // Two literals share the first MUS.
    let mc1 = MusContext::new(1, &mus1);
    let mc2 = MusContext::new(2, &mus1);
    // A third literal has a different MUS.
    let mc3 = MusContext::new(3, &mus2);

    let v = vec![mc1, mc2, mc3];
    let result = merge_muscontexts(&v);

    assert_eq!(result.len(), 2);

    let merged_entry = result.iter().find(|mc| mc.lits.contains(&1)).unwrap();
    assert_eq!(merged_entry.lits.len(), 2);
    assert!(merged_entry.lits.contains(&1));
    assert!(merged_entry.lits.contains(&2));

    let single_entry = result.iter().find(|mc| mc.lits.contains(&3)).unwrap();
    assert_eq!(single_entry.lits.len(), 1);
    assert!(single_entry.lits.contains(&3));
}

#[test]
fn merge_is_idempotent_on_values() {
    let v = vec![
        MusContext::new(1, &vec![7, 8]),
        MusContext::new(2, &vec![7, 8]),
        MusContext::new(3, &vec![9]),
    ];
    let once = merge_muscontexts(&v);
    let twice = merge_muscontexts(&once);
    assert_eq!(once, twice);
}

#[test]
fn merge_is_associative_on_values() {
    let a = vec![MusContext::new(1, &vec![7, 8])];
    let b = vec![MusContext::new(2, &vec![7, 8]), MusContext::new(3, &vec![9])];
    let c = vec![MusContext::new(4, &vec![9])];

    let mut bc_in = b.clone();
    bc_in.extend(c.clone());
    let bc = merge_muscontexts(&bc_in);
    let mut left_in = a.clone();
    left_in.extend(bc);
    let left = merge_muscontexts(&left_in);

    let mut ab_in = a.clone();
    ab_in.extend(b.clone());
    let ab = merge_muscontexts(&ab_in);
    let mut right_in = ab;
    right_in.extend(c.clone());
    let right = merge_muscontexts(&right_in);

    assert_eq!(left, right);
}

#[test]
fn context_constructors_sort_and_union() {
    let mc = MusContext::new_multi_lit(&vec![5, 1, 5], &vec![9, 2]);
    assert_eq!(mc.lits, vec![1, 5]);
    assert_eq!(mc.mus, vec![2, 9]);
    let wider = MusContext::new_with_more_lits(&vec![3], &mc);
    assert_eq!(wider.lits, vec![1, 3, 5]);
    assert_eq!(wider.mus, vec![2, 9]);
    assert_eq!(wider.mus_len(), 2);
}
