use gps::{problem_solver, Operator, Problem};

fn strings(items: &[&str]) -> Vec<String> {
    items.iter().map(|s| s.to_string()).collect()
}

fn string_list(value: &serde_json::Value, field: &str) -> Vec<String> {
    value
        .get(field)
        .unwrap()
        .as_array()
        .unwrap()
        .iter()
        .map(|item| item.as_str().unwrap().to_string())
        .collect()
}

fn problem_from_json(text: &str) -> Problem<String> {
    let value: serde_json::Value = serde_json::from_str(text).unwrap();
    let ops = value
        .get("ops")
        .unwrap()
        .as_array()
        .unwrap()
        .iter()
        .map(|op| Operator {
            action: op.get("action").unwrap().as_str().unwrap().to_string(),
            preconds: string_list(op, "preconds"),
            add: string_list(op, "add"),
            delete: string_list(op, "delete"),
        })
        .collect();
    Problem { start: string_list(&value, "start"), finish: string_list(&value, "finish"), ops }
}

#[test]
fn test_monkey_problem() {
    let example = Problem {
        start: vec![
            "at door".to_string(),
            "on floor".to_string(),
            "has ball".to_string(),
            "hungry".to_string(),
            "chair at door".to_string(),
        ],
        finish: vec!["not hungry".to_string()],
        ops: vec![
            Operator {
                action: "climb on chair".to_string(),
                preconds: vec![
                    "chair at middle room".to_string(),
                    "at middle room".to_string(),
                    "on floor".to_string(),
                ],
                add: vec!["at bananas".to_string(), "on chair".to_string()],
                delete: vec!["at middle room".to_string(), "on floor".to_string()],
            },
            Operator {
                action: "push chair from door to middle room".to_string(),
                preconds: vec!["chair at door".to_string(), "at door".to_string()],
                add: vec!["chair at middle room".to_string(), "at middle room".to_string()],
                delete: vec!["chair at door".to_string(), "at door".to_string()],
            },
            Operator {
                action: "walk from door to middle room".to_string(),
                preconds: vec!["at door".to_string(), "on floor".to_string()],
                add: vec!["at middle room".to_string()],
                delete: vec!["at door".to_string()],
            },
            Operator {
                action: "grasp bananas".to_string(),
                preconds: vec!["at bananas".to_string(), "empty handed".to_string()],
                add: vec!["has bananas".to_string()],
                delete: vec!["empty handed".to_string()],
            },
            Operator {
                action: "drop ball".to_string(),
                preconds: vec!["has ball".to_string()],
                add: vec!["empty handed".to_string()],
                delete: vec!["has ball".to_string()],
            },
            Operator {
                action: "eat bananas".to_string(),
                preconds: vec!["has bananas".to_string()],
                add: vec!["empty handed".to_string(), "not hungry".to_string()],
                delete: vec!["has bananas".to_string(), "hungry".to_string()],
            },
        ],
    };
    let res = problem_solver(&example.start, &example.finish, &example.ops);
    println!("{:?}", example);
    assert_eq!(
        res,
        Some(vec![
            "push chair from door to middle room".to_string(),
            "climb on chair".to_string(),
            "drop ball".to_string(),
            "grasp bananas".to_string(),
            "eat bananas".to_string()
        ])
    );
}

#[test]
fn test_monkey_problem_from_json() {
    let str_example = r#"{
        "start": ["at door", "on floor", "has ball", "hungry", "chair at door"],
        "finish": ["not hungry"],
        "ops": [
    	{
    	    "action": "climb on chair",
    	    "preconds": ["chair at middle room", "at middle room", "on floor"],
    	    "add": ["at bananas", "on chair"],
    	    "delete": ["at middle room", "on floor"]
    	},
    	{
    	    "action": "push chair from door to middle room",
    	    "preconds": ["chair at door", "at door"],
    	    "add": ["chair at middle room", "at middle room"],
    	    "delete": ["chair at door", "at door"]
    	},
    	{
    	    "action": "walk from door to middle room",
    	    "preconds": ["at door", "on floor"],
    	    "add": ["at middle room"],
    	    "delete": ["at door"]
    	},
    	{
    	    "action": "grasp bananas",
    	    "preconds": ["at bananas", "empty handed"],
    	    "add": ["has bananas"],
    	    "delete": ["empty handed"]
    	},
    	{
    	    "action": "drop ball",
    	    "preconds": ["has ball"],
    	    "add": ["empty handed"],
    	    "delete": ["has ball"]
    	},
    	{
    	    "action": "eat bananas",
    	    "preconds": ["has bananas"],
    	    "add": ["empty handed", "not hungry"],
    	    "delete": ["has bananas", "hungry"]
    	}
    ]
}"#;

    let example: Problem<String> = problem_from_json(str_example);
    let res = problem_solver(&example.start, &example.finish, &example.ops);
    assert_eq!(
        res,
        Some(vec![
            "push chair from door to middle room".to_string(),
            "climb on chair".to_string(),
            "drop ball".to_string(),
            "grasp bananas".to_string(),
            "eat bananas".to_string()
        ])
    );
}

#[test]
fn test_baseball_problem() {
    let str_example = r#"{
                "start": ["hand empty", "arm down"],
                "finish": ["satisfied", "baseball in air"],
                "ops": [
                {
                    "action": "raise arm",
                    "preconds": ["arm down"],
                    "add": ["arm up", "raising arm"],
                    "delete": ["arm down"]
                },
                {
                    "action": "throw baseball",
                    "preconds": ["have baseball", "arm up"],
                    "add": ["arm down", "baseball in air", "throwing baseball"],
                    "delete": ["have baseball", "arm up"]
                },
                {
                    "action": "grab baseball",
                    "preconds": ["hand empty", "arm down"],
                    "add": ["have baseball", "grabbing baseball"],
                    "delete": ["hand empty"]
                },
                {
                    "action": "drink beer",
                    "preconds": ["arm down", "hand empty"],
                    "add": ["satisfied", "drinking beer"],
                    "delete": []
                }
            ]
        }"#;
    let example: Problem<String> = problem_from_json(str_example);
    let res = problem_solver(&example.start, &example.finish, &example.ops);
    assert_eq!(
        res,
        Some(vec![
            "drink beer".to_string(),
            "grab baseball".to_string(),
            "raise arm".to_string(),
            "throw baseball".to_string()
        ])
    );
}

#[test]
fn json_problem_matches_the_one_built_by_hand() {
    let parsed = problem_from_json(
        r#"{"start": ["a"], "finish": ["b"], "ops": [
            {"action": "go", "preconds": ["a"], "add": ["b"], "delete": ["a"]}]}"#,
    );
    assert_eq!(parsed.start, strings(&["a"]));
    assert_eq!(parsed.finish, strings(&["b"]));
    assert_eq!(parsed.ops.len(), 1);
    assert_eq!(parsed.ops[0].action, "go");
    assert_eq!(parsed.ops[0].preconds, strings(&["a"]));
    assert_eq!(parsed.ops[0].add, strings(&["b"]));
    assert_eq!(parsed.ops[0].delete, strings(&["a"]));
    assert_eq!(
        problem_solver(&parsed.start, &parsed.finish, &parsed.ops),
        Some(strings(&["go"]))
    );
}
