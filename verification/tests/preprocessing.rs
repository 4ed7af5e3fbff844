use thermite_core::preprocessing::{ColumnCategories, LabelEncoderCore, LabelError, OneHotEncoderCore, OneHotError};
use thermite_core::table::Table;

/// The position of the first largest entry of each block of each encoded row.
fn first_largest(ohe: &OneHotEncoderCore, encoded: &Table<u8>) -> Table<usize> {
    let offsets = ohe.category_offsets();
    let n_features = ohe.categories.len();
    let rows = encoded
        .rows
        .iter()
        .map(|row| {
            (0..n_features)
                .map(|j| {
                    let block = &row[offsets[j]..offsets[j + 1]];
                    let mut best = 0;
                    for (k, &v) in block.iter().enumerate() {
                        if v > block[best] {
                            best = k;
                        }
                    }
                    best
                })
                .collect()
        })
        .collect();
    Table { n_cols: n_features, rows }
}

#[test]
fn test_label_encoder() {
    let mut le = LabelEncoderCore::new();
    le.fit_int(&[20, 10, 20, 30]);
    assert_eq!(le.classes_int.as_ref().unwrap(), &vec![10, 20, 30]);

    let encoded = le.transform_int(&[30, 10, 20]).unwrap();
    assert_eq!(encoded, vec![2, 0, 1]);

    let decoded = le.inverse_transform_int(&[2, 0, 1]).unwrap();
    assert_eq!(decoded, vec![30, 10, 20]);
}

#[test]
fn test_one_hot_encoder() {
    let mut ohe = OneHotEncoderCore::new("error".to_string());
    let x = Table { n_cols: 2, rows: vec![vec![1i64, 10], vec![2, 20], vec![1, 20]] };
    ohe.fit_int(&x);
    // col 0 cats: 1, 2 (len 2)
    // col 1 cats: 10, 20 (len 2)
    let xt = ohe.transform_int(&x).unwrap();
    // first row [1, 10] -> [1, 0, 1, 0]
    assert_eq!(xt.rows, vec![vec![1u8, 0, 1, 0], vec![0, 1, 0, 1], vec![1, 0, 0, 1]]);

    let picks = first_largest(&ohe, &xt);
    let x_orig = ohe.inverse_transform_int(xt.n_cols, &picks).unwrap();
    assert_eq!(x_orig.rows, x.rows);
}

#[test]
fn label_encoder_strings_round_trip() {
    let mut le = LabelEncoderCore::new();
    le.fit_str(vec!["pear".to_string(), "apple".to_string(), "pear".to_string(), "fig".to_string()]);
    assert_eq!(le.classes_str.as_ref().unwrap(), &vec!["apple".to_string(), "fig".to_string(), "pear".to_string()]);
    assert!(le.classes_int.is_none());
    let y = vec!["fig".to_string(), "pear".to_string(), "apple".to_string()];
    let codes = le.transform_str(&y).unwrap();
    assert_eq!(codes, vec![1, 2, 0]);
    assert_eq!(le.inverse_transform_str(&codes).unwrap(), y);
}

#[test]
fn label_encoder_floats_by_bit_pattern() {
    let mut le = LabelEncoderCore::new();
    let y: Vec<u64> = [2.5f64, -1.0, 2.5, 0.0].iter().map(|v| v.to_bits()).collect();
    le.fit_float(&y);
    let classes: Vec<f64> = le.classes_float.as_ref().unwrap().iter().map(|b| f64::from_bits(*b)).collect();
    assert_eq!(classes, vec![-1.0, 0.0, 2.5]);
    let codes = le.transform_float(&[0.0f64.to_bits(), 2.5f64.to_bits()]).unwrap();
    assert_eq!(codes, vec![1, 2]);
    let back: Vec<f64> = le.inverse_transform_float(&[2, 0]).unwrap().iter().map(|b| f64::from_bits(*b)).collect();
    assert_eq!(back, vec![2.5, -1.0]);
    assert!(matches!(le.transform_float(&[7.0f64.to_bits()]), Err(LabelError::UnseenFloat(b)) if b == 7.0f64.to_bits()));
}

#[test]
fn label_encoder_errors() {
    let mut le = LabelEncoderCore::new();
    assert!(matches!(le.transform_int(&[1]), Err(LabelError::NotFittedInt)));
    assert!(matches!(le.inverse_transform_str(&[0]), Err(LabelError::NotFittedStr)));
    assert!(matches!(le.transform_float(&[0]), Err(LabelError::NotFittedFloat)));
    le.fit_int(&[3, 1, 2]);
    assert!(matches!(le.transform_int(&[1, 5, 7]), Err(LabelError::UnseenInt(5))));
    assert!(matches!(le.inverse_transform_int(&[0, 3]), Err(LabelError::OutOfBounds(3))));
    assert!(matches!(le.inverse_transform_int(&[-1]), Err(LabelError::OutOfBounds(-1))));
    // fitting on integers forgets other kinds
    assert!(matches!(le.transform_str(&["a".to_string()]), Err(LabelError::NotFittedStr)));
}

#[test]
fn one_hot_unknown_values() {
    let x = Table { n_cols: 2, rows: vec![vec![1i64, 10], vec![2, 20]] };
    let mut strict = OneHotEncoderCore::new("error".to_string());
    strict.fit_int(&x);
    let unseen = Table { n_cols: 2, rows: vec![vec![1i64, 10], vec![2, 99], vec![7, 20]] };
    assert!(matches!(strict.transform_int(&unseen), Err(OneHotError::UnknownInt { value: 99, column: 1 })));

    let mut lenient = OneHotEncoderCore::new("ignore".to_string());
    lenient.fit_int(&x);
    let t = lenient.transform_int(&unseen).unwrap();
    assert_eq!(t.n_cols, 4);
    assert_eq!(t.rows, vec![vec![1u8, 0, 1, 0], vec![0, 1, 0, 0], vec![0, 0, 0, 1]]);

    let narrow = Table { n_cols: 1, rows: vec![vec![1i64]] };
    assert!(matches!(strict.transform_int(&narrow), Err(OneHotError::FeatureMismatch { expected: 2, got: 1 })));
}

#[test]
fn one_hot_strings() {
    let mut ohe = OneHotEncoderCore::new("error".to_string());
    let cols = vec![
        vec!["red".to_string(), "blue".to_string(), "red".to_string()],
        vec!["s".to_string(), "m".to_string(), "l".to_string()],
    ];
    ohe.fit_str(cols.clone());
    assert!(matches!(&ohe.categories[0], ColumnCategories::Str(c) if c == &vec!["blue".to_string(), "red".to_string()]));
    assert_eq!(ohe.categories[1].len(), 3);
    let t = ohe.transform_str(&cols).unwrap();
    // blocks: [blue, red] then [l, m, s]
    assert_eq!(t.rows, vec![vec![0u8, 1, 0, 0, 1], vec![1, 0, 0, 1, 0], vec![0, 1, 1, 0, 0]]);
    let picks = first_largest(&ohe, &t);
    let back = ohe.inverse_transform_str(t.n_cols, &picks).unwrap();
    assert_eq!(back[2], vec!["red".to_string(), "l".to_string()]);

    assert!(matches!(ohe.transform_str(&[]), Err(OneHotError::EmptyInput)));
    let unseen = vec![vec!["green".to_string()], vec!["s".to_string()]];
    assert!(matches!(ohe.transform_str(&unseen), Err(OneHotError::UnknownStr { ref text, column: 0 }) if text == "green"));
    assert!(matches!(ohe.inverse_transform_str(4, &picks), Err(OneHotError::WidthMismatch { expected: 5, got: 4 })));
    let ints = Table { n_cols: 2, rows: vec![vec![1i64, 2]] };
    assert!(matches!(ohe.transform_int(&ints), Err(OneHotError::NotIntCategories)));
    assert!(matches!(ohe.inverse_transform_int(5, &picks), Err(OneHotError::NotIntCategories)));
    assert_eq!(ohe.category_offsets(), vec![0, 2, 5]);
}

#[test]
fn encoders_refuse_the_other_kind_of_label() {
    let mut le = LabelEncoderCore::new();
    le.fit_str(vec!["b".to_string(), "a".to_string()]);
    assert!(matches!(le.transform_str(&["a".to_string(), "z".to_string()]), Err(LabelError::UnseenStr(ref s)) if s == "z"));

    let mut ohe = OneHotEncoderCore::new("error".to_string());
    ohe.fit_int(&Table { n_cols: 1, rows: vec![vec![4i64], vec![5]] });
    let cols = vec![vec!["x".to_string()]];
    assert!(matches!(ohe.transform_str(&cols), Err(OneHotError::NotStrCategories)));
    let picks = Table { n_cols: 1, rows: vec![vec![1usize]] };
    assert!(matches!(ohe.inverse_transform_str(2, &picks), Err(OneHotError::NotStrCategories)));
}
