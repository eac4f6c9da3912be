use demystify::model::{PuzLit, PuzVar, VarValPair};
use std::sync::Arc;

#[test]
fn var() {
    let v = PuzVar::new("v", vec![]);
    let v2 = PuzVar::new("v", vec![2]);
    let w = PuzVar::new("w", vec![]);
    assert_eq!(v, v);
    assert!(v != w);
    assert!(v2 != w);
    assert!(v != v2);
}

#[test]
fn varval() {
    let v = Arc::new(PuzVar::new("v", vec![]));
    let w = Arc::new(PuzVar::new("w", vec![]));
    let l = VarValPair::new(&v, 2);
    let nl = VarValPair::new(&v, 3);
    let lw = VarValPair::new(&w, 2);
    assert!(l != nl);
    assert!(l != lw);
    assert!(nl != lw);
    assert_eq!(l, l);
}

#[test]
fn lit() {
    let v = Arc::new(PuzVar::new("v", vec![]));
    let w = Arc::new(PuzVar::new("w", vec![]));
    let l = PuzLit::new_eq(VarValPair::new(&v, 2));
    let nl = PuzLit::new_neq(VarValPair::new(&v, 2));
    let lw = PuzLit::new_eq(VarValPair::new(&w, 2));
    assert_eq!(l, l);
    assert_eq!(l, l.neg().neg());
    assert_eq!(l, nl.neg());
    assert_eq!(l.neg(), nl);
    assert!(l != lw);
}

#[test]
fn varval_lit() {
    let v = Arc::new(PuzVar::new("v", vec![]));
    let w = Arc::new(PuzVar::new("w", vec![]));
    let l = PuzLit::new_eq(VarValPair::new(&v, 2));
    let nl = PuzLit::new_neq(VarValPair::new(&v, 2));
    let lw = PuzLit::new_eq(VarValPair::new(&w, 2));

    let vvl = VarValPair::new(&v, 2);
    let vvl3 = VarValPair::new(&v, 3);
    let vvlw = VarValPair::new(&w, 2);

    assert!(l.is_varval(&vvl));
    assert!(nl.is_varval(&vvl));
    assert!(!l.is_varval(&vvl3));
    assert!(!nl.is_varval(&vvl3));
    assert!(lw.is_varval(&vvlw));
    assert!(!lw.is_varval(&vvl));

    assert!(vvl.is_lit(&l));
    assert!(vvl.is_lit(&nl));
    assert!(!vvl3.is_lit(&l));
    assert!(!vvl3.is_lit(&nl));
    assert!(!vvl.is_lit(&lw));
    assert!(!vvlw.is_lit(&l));
    assert!(vvlw.is_lit(&lw));
}

#[test]
fn test_puzvar_to_css_string() {
    let v = PuzVar::new("v.name", vec![]);
    assert_eq!(v.to_css_string(), "v_name");

    let v_with_indices = PuzVar::new("v-name", vec![1, 2, 3]);
    assert_eq!(v_with_indices.to_css_string(), "v_name_1_2_3");

    let v_complex = PuzVar::new("v.name-test", vec![42]);
    assert_eq!(v_complex.to_css_string(), "v_name_test_42");
}

#[test]
fn test_varvalpair_to_css_string() {
    let v = PuzVar::new("v.name", vec![1, 2]);
    let pair = VarValPair::new(&v, 42);
    assert_eq!(pair.to_css_string(), "lit_v_name_1_2__42");

    let w = PuzVar::new("w-name", vec![]);
    let pair_no_indices = VarValPair::new(&w, 7);
    assert_eq!(pair_no_indices.to_css_string(), "lit_w_name__7");
}

#[test]
fn test_nice_puzlit_list_html() {
    let v = PuzVar::new("v", vec![]);
    let w = PuzVar::new("w", vec![]);
    let x = PuzVar::new("x", vec![1, 2]);

    let lit1 = PuzLit::new_eq(VarValPair::new(&v, 2));
    assert!(PuzLit::nice_puzlit_list_html(&vec![lit1.clone()]).contains("v[] = 2"));

    let lit2 = PuzLit::new_eq(VarValPair::new(&w, 3));
    let lit3 = PuzLit::new_eq(VarValPair::new(&x, 5));
    assert!(
        PuzLit::nice_puzlit_list_html(&vec![lit1, lit2, lit3]).contains("x[1, 2] = 5")
    );

    let neq1 = PuzLit::new_neq(VarValPair::new(&v, 2));
    assert!(PuzLit::nice_puzlit_list_html(&vec![neq1.clone()]).contains("v[] != 2"));

    let neq2 = PuzLit::new_neq(VarValPair::new(&v, 3));
    let neq3 = PuzLit::new_neq(VarValPair::new(&v, 4));
    assert!(
        PuzLit::nice_puzlit_list_html(&vec![neq1, neq2, neq3]).contains("v[] != 2 or 3 or 4")
    );

    let mix1 = PuzLit::new_eq(VarValPair::new(&v, 5));
    let mix2 = PuzLit::new_neq(VarValPair::new(&w, 1));
    let mix3 = PuzLit::new_neq(VarValPair::new(&w, 2));
    let mix4 = PuzLit::new_eq(VarValPair::new(&x, 7));
    let html = PuzLit::nice_puzlit_list_html(&vec![mix1, mix2, mix3, mix4]);
    assert!(html.contains("v[] = 5"));
    assert!(html.contains("w[] != 1 or 2"));
    assert!(html.contains("x[1, 2] = 7"));

    assert_eq!(PuzLit::nice_puzlit_list_html(&vec![]), "");
}

#[test]
fn render_shows_sign_and_value() {
    let v = PuzVar::new("v", vec![2, 3]);
    assert_eq!(v.render(), "v[2, 3]");
    let l = PuzLit::new_eq(VarValPair::new(&v, -4));
    assert_eq!(l.render(), "v[2, 3]=-4");
    assert_eq!(l.neg().render(), "v[2, 3]!=-4");
    assert_eq!(l.var().name(), "v");
    assert_eq!(l.val(), -4);
    assert!(l.sign());
    assert!(!l.neg().sign());
    assert!(l.equal_mod_sign(&l.neg()));
}
