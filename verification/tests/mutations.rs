use gorilla::mutation::{
    empty_mutation_set, mutate_word, parse_mutation, parse_mutation_string, Mutation,
    MutationResult, MutationSet,
};

fn fresh_result(word: &str) -> MutationResult {
    MutationResult { original_word: word.to_string(), mutated_words: vec![] }
}

#[test]
fn capitalize_appends_one_string() {
    let set = MutationSet { mutations: vec![Mutation::Capitalize] };
    let mut result = fresh_result("cat");
    set.perform(&mut result, &"cat".to_string());
    assert_eq!(result.mutated_words, vec!["Cat".to_string()]);
}

#[test]
fn branching_rules_cross_product() {
    let set = MutationSet { mutations: vec![Mutation::Leet('a', '4'), Mutation::Cases] };
    let mut result = fresh_result("cat");
    set.perform(&mut result, &"cat".to_string());
    assert_eq!(
        result.mutated_words,
        vec![
            "cat".to_string(),
            "CAT".to_string(),
            "cat".to_string(),
            "c4t".to_string(),
            "C4T".to_string(),
            "c4t".to_string(),
        ]
    );
}

#[test]
fn empty_set_appends_nothing() {
    let set = empty_mutation_set();
    let mut result = fresh_result("anything");
    set.perform(&mut result, &"anything".to_string());
    assert_eq!(result.mutated_words.len(), 0);
    assert_eq!(result.original_word, "anything".to_string());
}

#[test]
fn perform_appends_after_existing() {
    let set = MutationSet { mutations: vec![Mutation::Uppercase] };
    let mut result = fresh_result("dog");
    result.mutated_words.push("kept".to_string());
    set.perform(&mut result, &"dog".to_string());
    assert_eq!(result.mutated_words, vec!["kept".to_string(), "DOG".to_string()]);
}

#[test]
fn rule_applications() {
    let word = "Banana".to_string();
    let cases: Vec<(Mutation, Vec<&str>)> = vec![
        (Mutation::Uppercase, vec!["BANANA"]),
        (Mutation::Lowercase, vec!["banana"]),
        (Mutation::Capitalize, vec!["Banana"]),
        (Mutation::Reverse, vec!["ananaB"]),
        (Mutation::RemoveFirst, vec!["anana"]),
        (Mutation::RemoveLast, vec!["Banan"]),
        (Mutation::Prepend("my_".to_string()), vec!["my_Banana"]),
        (Mutation::Append("!".to_string()), vec!["Banana!"]),
        (Mutation::Replace('a', '4'), vec!["B4n4n4"]),
        (Mutation::Leet('n', '9'), vec!["Banana", "Ba9a9a"]),
        (Mutation::Cases, vec!["Banana", "BANANA", "banana"]),
    ];
    for (m, expect) in cases {
        let got = m.apply(&word);
        let expect: Vec<String> = expect.into_iter().map(|s| s.to_string()).collect();
        assert_eq!(got, expect);
    }
}

#[test]
fn min_length_filters() {
    let keep = Mutation::MinLength(4).apply(&"cats".to_string());
    assert_eq!(keep, vec!["cats".to_string()]);
    let drop = Mutation::MinLength(4).apply(&"cat".to_string());
    assert_eq!(drop.len(), 0);
}

#[test]
fn filter_inside_pipeline_appends_nothing() {
    let set = MutationSet { mutations: vec![Mutation::MinLength(9)] };
    let mut result = fresh_result("short");
    set.perform(&mut result, &"short".to_string());
    assert_eq!(result.mutated_words.len(), 0);
}

#[test]
fn empty_word_edge_cases() {
    let empty = "".to_string();
    assert_eq!(Mutation::RemoveFirst.apply(&empty), vec!["".to_string()]);
    assert_eq!(Mutation::RemoveLast.apply(&empty), vec!["".to_string()]);
    assert_eq!(Mutation::Capitalize.apply(&empty), vec!["".to_string()]);
}

#[test]
fn descriptors_round_trip() {
    let descriptors = vec![
        "upper",
        "lower",
        "capitalize",
        "reverse",
        "remove_first",
        "remove_last",
        "cases",
        "prepend:pre_",
        "append:_end",
        "replace:a:4",
        "leet:e:3",
        "min_length:5",
        "replace:::x",
    ];
    for d in descriptors {
        let m = parse_mutation(d).unwrap();
        assert_eq!(m.to_string(), d.to_string());
    }
}

#[test]
fn unrecognized_descriptor_is_error() {
    let e = parse_mutation("bogus").unwrap_err();
    assert_eq!(e.descriptor, "bogus".to_string());
    let e = parse_mutation("replace:ab").unwrap_err();
    assert_eq!(e.descriptor, "replace:ab".to_string());
    let e = parse_mutation("min_length:42").unwrap_err();
    assert_eq!(e.descriptor, "min_length:42".to_string());
}

#[test]
fn parse_mutation_string_pipeline() {
    let descriptors = vec!["capitalize".to_string(), "append:1".to_string()];
    let ms = parse_mutation_string(&descriptors).unwrap();
    assert_eq!(ms.len(), 2);
    let set = MutationSet { mutations: ms };
    let mut result = fresh_result("pass");
    set.perform(&mut result, &"pass".to_string());
    assert_eq!(result.mutated_words, vec!["Pass1".to_string()]);
}

#[test]
fn parse_mutation_string_reports_first_error() {
    let descriptors = vec!["upper".to_string(), "nope".to_string()];
    let e = parse_mutation_string(&descriptors).unwrap_err();
    assert_eq!(e.descriptor, "nope".to_string());
}

#[test]
fn mutate_word_one_result_per_set() {
    let sets = vec![
        MutationSet { mutations: vec![Mutation::Uppercase] },
        MutationSet { mutations: vec![Mutation::Reverse, Mutation::Append("!".to_string())] },
    ];
    let results = mutate_word(&sets, &"abc".to_string());
    assert_eq!(results.len(), 2);
    assert_eq!(results[0].original_word, "abc".to_string());
    assert_eq!(results[0].mutated_words, vec!["ABC".to_string()]);
    assert_eq!(results[1].original_word, "abc".to_string());
    assert_eq!(results[1].mutated_words, vec!["cba!".to_string()]);
}
