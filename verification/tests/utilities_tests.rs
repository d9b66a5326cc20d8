use classify::{
    breaks_to_classification, classify_val, create_unique_val_mapping, first_at_or_above,
    unique_to_normal_breaks, Bin, Classification, ClassifyError, UniqueVal,
};

#[test]
fn test_create_unique_val_mapping() {
    let mut unique_val_map: Vec<UniqueVal> = vec![];
    let data: Vec<i64> = vec![2, 2, 7, 7, 7, 8];

    create_unique_val_mapping(&mut unique_val_map, &data);

    let expected = vec![
        UniqueVal { val: 2, first: 0, last: 1 },
        UniqueVal { val: 7, first: 2, last: 4 },
        UniqueVal { val: 8, first: 5, last: 5 },
    ];

    assert_eq!(unique_val_map.len(), expected.len());
    for i in 0..unique_val_map.len() {
        let value = &unique_val_map[i];
        let check = &expected[i];
        assert_eq!(value.val, check.val, "create_unique_val_mapping not working!");
        assert_eq!(value.first, check.first, "create_unique_val_mapping not working!");
        assert_eq!(value.last, check.last, "create_unique_val_mapping not working!");
    }
}

#[test]
fn test_unique_to_normal_breaks() {
    let mut unique_val_map: Vec<UniqueVal> = vec![];
    let data: Vec<i64> = vec![1, 2, 2, 4, 5, 7, 7, 7, 8];
    create_unique_val_mapping(&mut unique_val_map, &data);
    let unique_val_breaks: Vec<usize> = vec![1, 3, 4];
    let mut normal_breaks: Vec<usize> = vec![0; unique_val_breaks.len()];

    unique_to_normal_breaks(&unique_val_breaks, &unique_val_map, &mut normal_breaks);

    assert_eq!(normal_breaks, vec![1, 4, 5], "unique_to_normal_breaks not working!");
}

#[test]
fn unique_val_mapping_of_empty_sample_is_empty() {
    let mut unique_val_map: Vec<UniqueVal> = vec![UniqueVal { val: 9, first: 0, last: 0 }];
    create_unique_val_mapping(&mut unique_val_map, &vec![]);
    assert!(unique_val_map.is_empty());
}

#[test]
fn unique_val_mapping_closes_the_last_run() {
    let mut unique_val_map: Vec<UniqueVal> = vec![];
    create_unique_val_mapping(&mut unique_val_map, &vec![1, 2, 2]);
    assert_eq!(
        unique_val_map,
        vec![UniqueVal { val: 1, first: 0, last: 0 }, UniqueVal { val: 2, first: 1, last: 2 }]
    );
    create_unique_val_mapping(&mut unique_val_map, &vec![-3, -3, -3, -3]);
    assert_eq!(unique_val_map, vec![UniqueVal { val: -3, first: 0, last: 3 }]);
}

#[test]
fn unique_to_normal_breaks_replaces_the_target() {
    let mut unique_val_map: Vec<UniqueVal> = vec![];
    create_unique_val_mapping(&mut unique_val_map, &vec![5, 5, 6, 6, 6, 9]);
    let mut normal_breaks: Vec<usize> = vec![40, 41, 42, 43];
    unique_to_normal_breaks(&vec![2], &unique_val_map, &mut normal_breaks);
    assert_eq!(normal_breaks, vec![5]);
    unique_to_normal_breaks(&vec![], &unique_val_map, &mut normal_breaks);
    assert!(normal_breaks.is_empty());
}

#[test]
fn breaks_to_classification_counts_each_bin() {
    let data: Vec<i64> = vec![1, 2, 4, 5, 7, 8];
    let breaks: Vec<i64> = vec![2, 5];
    let result: Classification = breaks_to_classification(&breaks, &data).unwrap();
    assert_eq!(
        result.bins,
        vec![
            Bin { bin_start: 1, bin_end: 2, count: 1 },
            Bin { bin_start: 2, bin_end: 5, count: 2 },
            Bin { bin_start: 5, bin_end: 8, count: 3 },
        ]
    );
}

#[test]
fn breaks_to_classification_takes_unsorted_data() {
    let data: Vec<i64> = vec![8, 1, 7, 2, 5, 4];
    let result = breaks_to_classification(&vec![2, 5], &data).unwrap();
    let counts: Vec<u64> = result.bins.iter().map(|bin| bin.count).collect();
    assert_eq!(counts, vec![1, 2, 3]);
    assert_eq!(result.bins[0].bin_start, 1);
    assert_eq!(result.bins[2].bin_end, 8);
}

#[test]
fn breaks_to_classification_without_breaks_is_one_bin() {
    let data: Vec<i64> = vec![3, -4, 10, 0];
    let result = breaks_to_classification(&vec![], &data).unwrap();
    assert_eq!(result.bins, vec![Bin { bin_start: -4, bin_end: 10, count: 4 }]);
}

#[test]
fn breaks_to_classification_rejects_empty_data() {
    let result = breaks_to_classification(&vec![1, 2], &vec![]);
    assert_eq!(result.err(), Some(ClassifyError::EmptyDataset));
    let result = breaks_to_classification(&vec![], &vec![]);
    assert_eq!(result.err(), Some(ClassifyError::EmptyDataset));
}

#[test]
fn last_bin_holds_every_point_at_the_maximum() {
    let data: Vec<i64> = vec![1, 2, 2];
    let result = breaks_to_classification(&vec![2], &data).unwrap();
    assert_eq!(
        result.bins,
        vec![Bin { bin_start: 1, bin_end: 2, count: 1 }, Bin { bin_start: 2, bin_end: 2, count: 2 }]
    );
}

#[test]
fn constant_data_is_one_full_bin() {
    let data: Vec<i64> = vec![6, 6, 6, 6, 6];
    let result = breaks_to_classification(&vec![], &data).unwrap();
    assert_eq!(result.bins, vec![Bin { bin_start: 6, bin_end: 6, count: 5 }]);
}

#[test]
fn bins_cover_every_point_once() {
    let data: Vec<i64> = vec![9, -2, 4, 4, 4, 0, 9, 7, 3, -2, 5];
    let breaks_list: Vec<Vec<i64>> = vec![
        vec![],
        vec![4],
        vec![0, 4, 9],
        vec![3, 3, 7],
        vec![-10, 4],
        vec![5, 20],
        vec![-2, 9],
    ];
    for breaks in breaks_list {
        let bins = breaks_to_classification(&breaks, &data).unwrap().bins;
        assert_eq!(bins.len(), breaks.len() + 1);
        assert_eq!(bins[0].bin_start, -2);
        assert_eq!(bins[bins.len() - 1].bin_end, 9);
        for i in 0..breaks.len() {
            assert_eq!(bins[i].bin_end, bins[i + 1].bin_start);
            assert_eq!(bins[i].bin_end, breaks[i]);
        }
        let total: u64 = bins.iter().map(|bin| bin.count).sum();
        assert_eq!(total, data.len() as u64);
    }
}

#[test]
fn classify_val_finds_the_bin() {
    let class = breaks_to_classification(&vec![2, 5], &vec![1, 2, 4, 5, 7, 8]).unwrap();
    assert_eq!(classify_val(1, &class), Some(0));
    assert_eq!(classify_val(2, &class), Some(1));
    assert_eq!(classify_val(4, &class), Some(1));
    assert_eq!(classify_val(5, &class), Some(2));
    assert_eq!(classify_val(8, &class), Some(2));
    assert_eq!(classify_val(0, &class), None);
    assert_eq!(classify_val(9, &class), None);
    let none = Classification { bins: vec![] };
    assert_eq!(classify_val(1, &none), None);
}

#[test]
fn first_at_or_above_parts_the_sample() {
    let sorted: Vec<i64> = vec![1, 2, 2, 4, 5, 7, 7, 7, 8];
    assert_eq!(first_at_or_above(&sorted, 0), 0);
    assert_eq!(first_at_or_above(&sorted, 1), 0);
    assert_eq!(first_at_or_above(&sorted, 2), 1);
    assert_eq!(first_at_or_above(&sorted, 3), 3);
    assert_eq!(first_at_or_above(&sorted, 7), 5);
    assert_eq!(first_at_or_above(&sorted, 8), 8);
    assert_eq!(first_at_or_above(&sorted, 9), 9);
    assert_eq!(first_at_or_above(&vec![], 3), 0);
}

#[test]
fn classifications_compare_by_their_bins() {
    let data: Vec<i64> = vec![1, 2, 4, 5, 7, 8];
    let breaks: Vec<i64> = vec![2, 5];
    let result: Classification = breaks_to_classification(&breaks, &data).unwrap();
    let expected: Classification = Classification {
        bins: vec![
            Bin { bin_start: 1, bin_end: 2, count: 1 },
            Bin { bin_start: 2, bin_end: 5, count: 2 },
            Bin { bin_start: 5, bin_end: 8, count: 3 },
        ],
    };
    assert!(result == expected);
    let shorter = Classification { bins: vec![Bin { bin_start: 1, bin_end: 2, count: 1 }] };
    assert!(result != shorter);
    assert!(shorter != result);
    let other = breaks_to_classification(&vec![2, 4], &data).unwrap();
    assert!(result != other);
}
