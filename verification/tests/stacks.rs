use advent::stacks::{
    parse_stack_indices, parse_stack_level, solution_part1, solution_part2, Instruction, Problem,
    Stack,
};

const EXAMPLE_INPUT: &str = "    [D]    \n[N] [C]    \n[Z] [M] [P]\n 1   2   3 \n\nmove 1 from 2 to 1\nmove 3 from 1 to 3\nmove 2 from 2 to 1\nmove 1 from 1 to 2\n";

fn parsed_example() -> Problem {
    Problem {
        stacks: vec![
            Stack { values: ['Z', 'N'].into(), index: 1 },
            Stack { values: ['M', 'C', 'D'].into(), index: 2 },
            Stack { values: ['P'].into(), index: 3 },
        ],
        instructions: [
            Instruction { src: 1, dest: 0, amount: 1 },
            Instruction { src: 0, dest: 2, amount: 3 },
            Instruction { src: 1, dest: 0, amount: 2 },
            Instruction { src: 0, dest: 1, amount: 1 },
        ]
        .into(),
    }
}

#[test]
fn test_parse_stack_level() {
    assert_eq!(
        parse_stack_level("    [D]    ").unwrap(),
        ("", vec![None, Some('D'), None])
    );
    assert_eq!(
        parse_stack_level("[N] [C]    ").unwrap(),
        ("", vec![Some('N'), Some('C'), None])
    );
    assert_eq!(
        parse_stack_level("[Z] [M] [P]").unwrap(),
        ("", vec![Some('Z'), Some('M'), Some('P')])
    );
}

#[test]
fn test_parse_stacks() {
    let (rest, stacks) =
        advent::stacks::parse_stacks("    [D]    \n[N] [C]    \n[Z] [M] [P]\n 1   2   3 \n")
            .unwrap();
    assert_eq!((rest, stacks), ("", parsed_example().stacks));
}

#[test]
fn test_parse_problem() {
    assert_eq!(EXAMPLE_INPUT.parse::<Problem>().unwrap(), parsed_example());
}

#[test]
fn test_parse_stack_indices() {
    assert_eq!(parse_stack_indices(" 1   2   3 ").unwrap(), ("", vec![1, 2, 3]));
}

#[test]
fn test_parse_instruction() {
    assert_eq!(
        Instruction::parse("move 1 from 2 to 3").unwrap(),
        ("", Instruction { src: 1, dest: 2, amount: 1 })
    );
}

#[test]
fn test_stack_take() {
    let mut stack = Stack { values: ['A', 'B', 'C', 'D'].into(), index: 1 };

    assert_eq!(stack.take(2).unwrap(), ['C', 'D']);
    assert_eq!(stack.values, ['A', 'B']);
}

#[test]
fn test_execute() {
    let mut problem = EXAMPLE_INPUT.parse::<Problem>().unwrap();
    problem.execute().unwrap();
    assert_eq!(
        problem,
        Problem {
            stacks: vec![
                Stack { values: ['C'].into(), index: 1 },
                Stack { values: ['M'].into(), index: 2 },
                Stack { values: ['P', 'D', 'N', 'Z'].into(), index: 3 },
            ],
            instructions: [].into(),
        }
    );
}

#[test]
fn test_execute2() {
    let mut problem = EXAMPLE_INPUT.parse::<Problem>().unwrap();
    problem.execute2().unwrap();
    assert_eq!(
        problem,
        Problem {
            stacks: vec![
                Stack { values: ['M'].into(), index: 1 },
                Stack { values: ['C'].into(), index: 2 },
                Stack { values: ['P', 'Z', 'N', 'D'].into(), index: 3 },
            ],
            instructions: [].into(),
        }
    );
}

#[test]
fn stacks_test_part1() {
    assert_eq!(solution_part1(EXAMPLE_INPUT).unwrap(), "CMZ".to_string());
}

#[test]
fn test_part2() {
    assert_eq!(solution_part2(EXAMPLE_INPUT).unwrap(), "MCD".to_string());
}

#[test]
fn step_fails_on_empty_source() {
    let mut problem = Problem {
        stacks: vec![
            Stack { values: [].into(), index: 1 },
            Stack { values: ['A'].into(), index: 2 },
        ],
        instructions: [Instruction { src: 0, dest: 1, amount: 1 }].into(),
    };
    assert!(problem.step().is_err());
}
