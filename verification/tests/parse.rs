use demystify::params::ParamValue;
use demystify::parse::{parse_dimacs_clauses, parse_model_annotations, parse_savile_row_name};
use demystify::model::PuzVar;
use demystify::puzzle::{parse_constraint_name, PuzzleParse};

fn model_with_names() -> PuzzleParse {
    let vars: Vec<String> = ["var1", "var2", "var3", "var3x"]
        .iter()
        .map(|s| (*s).to_string())
        .collect();
    let auxvars: Vec<String> = ["aux1", "aux2", "aux3"]
        .iter()
        .map(|s| (*s).to_string())
        .collect();

    let cons = vec![
        ("con1".to_string(), "test1".to_string()),
        ("con2".to_string(), "test2".to_string()),
    ];

    PuzzleParse::new_from_eprime(vars, auxvars, cons, Vec::new(), Vec::new(), None)
}

#[test]
fn test_parse_savile_row_name() {
    let dp = model_with_names();

    let n1 = "var1_00001_00002_00003";
    let expected1 = Some(PuzVar::new("var1", vec![1, 2, 3]));
    assert_eq!(parse_savile_row_name(&dp, n1).unwrap(), expected1);

    let n1b = "var1_00001_00002_00010";
    let expected1b = Some(PuzVar::new("var1", vec![1, 2, 10]));
    assert_eq!(parse_savile_row_name(&dp, n1b).unwrap(), expected1b);

    let n1c = "var1_n00001_00002_n00010";
    let expected1c = Some(PuzVar::new("var1", vec![-1, 2, -10]));
    assert_eq!(parse_savile_row_name(&dp, n1c).unwrap(), expected1c);

    let n1d = "var1";
    let expected1d = Some(PuzVar::new("var1", vec![]));
    assert_eq!(parse_savile_row_name(&dp, n1d).unwrap(), expected1d);

    let ncon = "con1";
    let expectedcon = Some(PuzVar::new("con1", vec![]));
    assert_eq!(parse_savile_row_name(&dp, ncon).unwrap(), expectedcon);

    let ne = "var3x";
    assert_eq!(
        parse_savile_row_name(&dp, ne).unwrap(),
        Some(PuzVar::new("var3x", vec![]))
    );

    let n2 = "aux2_4_5_6";
    assert_eq!(parse_savile_row_name(&dp, n2).unwrap(), None);

    let n3 = "not_found_7_8_9";
    assert_eq!(parse_savile_row_name(&dp, n3).unwrap(), None);

    let n4 = "var1_var2_10_11_12";
    assert_eq!(parse_savile_row_name(&dp, n4).unwrap(), None);

    let n5 = "var1_";
    assert_eq!(parse_savile_row_name(&dp, n5).unwrap(), None);
}

fn example_params() -> Vec<(String, ParamValue)> {
    vec![
        ("a".to_string(), ParamValue::Int(1)),
        ("b".to_string(), ParamValue::Int(2)),
        ("2".to_string(), ParamValue::Int(7)),
        (
            "3".to_string(),
            ParamValue::Dict(vec![("2".to_string(), ParamValue::Int(99))]),
        ),
    ]
}

#[test]
fn test_parse_constraint_name() {
    let params = example_params();
    let index = vec![1, 2, 3];
    let template = r"Constraint {{ index }} with params {{ params.a }}";
    let expected = "Constraint [1, 2, 3] with params 1";
    assert_eq!(
        parse_constraint_name(template, &params, &index).unwrap(),
        expected
    );
    let template = r"Constraint {{ index }} with params {{ params.a + 1 }}";
    let expected = "Constraint [1, 2, 3] with params 2";
    assert_eq!(
        parse_constraint_name(template, &params, &index).unwrap(),
        expected
    );
    let template = r"Constraint {{ index }} with params {{ params.2 }}";
    let expected = "Constraint [1, 2, 3] with params 7";
    assert_eq!(
        parse_constraint_name(template, &params, &index).unwrap(),
        expected
    );

    let template = r"Constraint {{ index }} with params {{ params.3.2 }}";
    let expected = "Constraint [1, 2, 3] with params 99";
    assert_eq!(
        parse_constraint_name(template, &params, &index).unwrap(),
        expected
    );
}

#[test]
fn dimacs_clauses_read_in_order() {
    let lines: Vec<String> = vec![
        "c a comment".to_string(),
        "p cnf 2 2".to_string(),
        "1 2 0".to_string(),
        "1 -2 0".to_string(),
    ];
    let cnf = parse_dimacs_clauses(&lines).unwrap();
    assert_eq!(cnf, vec![vec![1, 2], vec![1, -2]]);
}

#[test]
fn dimacs_refuses_junk() {
    let lines: Vec<String> = vec!["1 x 0".to_string()];
    assert!(parse_dimacs_clauses(&lines).is_err());
}

#[test]
fn annotations_classify_names() {
    let lines: Vec<String> = vec![
        "language ESSENCE' 1.0".to_string(),
        "$#VAR grid".to_string(),
        "$#AUX helper".to_string(),
        "$#CON rowcon \"row {{ index }} is fine\"".to_string(),
        "$#KIND Tiny".to_string(),
        "$#REVEAL grid shown".to_string(),
    ];
    let names = parse_model_annotations(&lines).unwrap();
    assert_eq!(names.vars, vec!["grid".to_string()]);
    assert_eq!(names.auxvars, vec!["helper".to_string()]);
    assert_eq!(names.cons.len(), 1);
    assert_eq!(names.cons[0].0, "rowcon");
    assert_eq!(names.cons[0].1, "row {{ index }} is fine");
    assert_eq!(names.kind, Some("Tiny".to_string()));
    assert_eq!(names.reveal, vec![("grid".to_string(), "shown".to_string())]);
}

#[test]
fn annotations_refuse_duplicate_names() {
    let lines: Vec<String> = vec!["$#VAR grid".to_string(), "$#AUX grid".to_string()];
    assert!(parse_model_annotations(&lines).is_err());
}

#[test]
fn annotations_refuse_prefix_names() {
    let lines: Vec<String> = vec!["$#VAR grid".to_string(), "$#AUX grid2".to_string()];
    assert!(parse_model_annotations(&lines).is_err());
}

#[test]
fn annotations_refuse_two_kinds() {
    let lines: Vec<String> = vec!["$#KIND A".to_string(), "$#KIND B".to_string()];
    assert!(parse_model_annotations(&lines).is_err());
}

#[test]
fn param_accessors_read_compiled_shapes() {
    let params = vec![
        ("n".to_string(), ParamValue::Int(4)),
        ("b1".to_string(), ParamValue::Bool(false)),
        (
            "l".to_string(),
            ParamValue::Dict(vec![
                ("1".to_string(), ParamValue::Int(2)),
                ("2".to_string(), ParamValue::Int(4)),
                ("3".to_string(), ParamValue::Int(6)),
                ("4".to_string(), ParamValue::Int(8)),
            ]),
        ),
    ];
    let parse = PuzzleParse::new_from_eprime(
        Vec::new(),
        Vec::new(),
        Vec::new(),
        Vec::new(),
        params,
        None,
    );
    assert!(parse.eprime.has_param("n"));
    assert!(!parse.eprime.has_param("q"));
    assert_eq!(parse.eprime.param_i64("n").unwrap(), 4);
    assert!(parse.eprime.param_bool("n").is_err());
    assert!(!parse.eprime.param_bool("b1").unwrap());
    assert_eq!(parse.eprime.param_vec_i64("l").unwrap(), vec![2, 4, 6, 8]);
    assert!(parse.eprime.param_vec_i64("n").is_err());
}
