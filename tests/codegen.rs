use brainfuck::{generate, labels_resolved, opcodes_size, optimize, parse, stats, tokenize, CodePlan, Emit, Expression, Stats};

fn plan_of(program: &str) -> CodePlan {
    let tokens = tokenize(&program.chars().collect());
    let tree = optimize(&parse(&tokens).unwrap());
    generate(&tree).unwrap()
}

/// The bytes of a plan that holds no jumps.
fn straight_bytes(steps: &[Emit]) -> Vec<u8> {
    let mut out = Vec::new();
    for s in steps {
        match s {
            Emit::Byte(b) => out.push(*b),
            Emit::DoubleWord(w) => out.extend_from_slice(&w.to_le_bytes()),
            other => panic!("unexpected step {:?}", other),
        }
    }
    out
}

fn code_len(steps: &[Emit]) -> usize {
    steps
        .iter()
        .map(|s| match s {
            Emit::Byte(_) => 1,
            Emit::DoubleWord(_) => 4,
            Emit::JzLabel(_) | Emit::JnzLabel(_) => 6,
            Emit::CreateLabel | Emit::AttachLabel(_) => 0,
        })
        .sum()
}

#[test]
fn straight_program_compiles_to_expected_bytes() {
    let plan = plan_of("+++>+++>+++--<-");
    let expected: Vec<u8> = vec![
        0x81, 0x06, 3, 0, 0, 0, // addl $3, (%rsi)
        0x48, 0x81, 0xc6, 4, 0, 0, 0, // addq $4, %rsi
        0x81, 0x06, 3, 0, 0, 0,
        0x48, 0x81, 0xc6, 4, 0, 0, 0,
        0x81, 0x06, 3, 0, 0, 0,
        0x81, 0x2e, 2, 0, 0, 0, // subl $2, (%rsi)
        0x48, 0x81, 0xee, 4, 0, 0, 0, // subq $4, %rsi
        0x81, 0x2e, 1, 0, 0, 0,
        0xc3, // retq
    ];
    assert_eq!(straight_bytes(&plan.steps), expected);
    assert_eq!(plan.buffer_size, expected.len() + 8);
}

#[test]
fn io_templates_are_system_calls() {
    let plan = plan_of(".,");
    let bytes = straight_bytes(&plan.steps);
    assert_eq!(bytes.len(), 23 * 2 + 1);
    assert_eq!(&bytes[0..7], &[0x48, 0xc7, 0xc0, 0x04, 0x00, 0x00, 0x02]);
    assert_eq!(&bytes[7..14], &[0x48, 0xc7, 0xc7, 0x01, 0x00, 0x00, 0x00]);
    assert_eq!(&bytes[21..23], &[0x0f, 0x05]);
    assert_eq!(&bytes[23..30], &[0x48, 0xc7, 0xc0, 0x03, 0x00, 0x00, 0x02]);
    assert_eq!(&bytes[30..37], &[0x48, 0xc7, 0xc7, 0x00, 0x00, 0x00, 0x00]);
}

#[test]
fn loop_template_uses_two_labels() {
    let plan = plan_of("[-]");
    assert_eq!(
        plan.steps,
        vec![
            Emit::CreateLabel,
            Emit::CreateLabel,
            Emit::Byte(0x83),
            Emit::Byte(0x3e),
            Emit::Byte(0x00),
            Emit::JzLabel(1),
            Emit::AttachLabel(0),
            Emit::Byte(0x81),
            Emit::Byte(0x2e),
            Emit::DoubleWord(1),
            Emit::Byte(0x83),
            Emit::Byte(0x3e),
            Emit::Byte(0x00),
            Emit::JnzLabel(0),
            Emit::AttachLabel(1),
            Emit::Byte(0xc3),
        ]
    );
}

#[test]
fn every_label_is_attached_once() {
    let plan = plan_of("+[>[-]<[>+<-]]-[.]");
    let created = plan.steps.iter().filter(|s| **s == Emit::CreateLabel).count();
    assert_eq!(created, 2 * plan.stats.loop_count);
    assert_eq!(created, 8);
    for l in 0..created {
        let attached = plan.steps.iter().filter(|s| **s == Emit::AttachLabel(l)).count();
        assert_eq!(attached, 1);
    }
    for s in &plan.steps {
        if let Emit::JzLabel(l) | Emit::JnzLabel(l) = s {
            assert!(*l < created);
        }
    }
}

#[test]
fn code_never_exceeds_buffer() {
    for program in ["", "+", "[[[[]]]]", "+[>[-]<[>+<-]]-[.]", ",[.,]", ">>>><<<<++--"] {
        let plan = plan_of(program);
        assert!(code_len(&plan.steps) <= plan.buffer_size);
        assert_eq!(code_len(&plan.steps) + 8, plan.buffer_size);
    }
}

#[test]
fn stats_count_nested_nodes() {
    let tokens = tokenize(&"+[>[-]<.],".chars().collect());
    let tree = parse(&tokens).unwrap();
    let s = stats(&tree);
    assert_eq!(
        (s.fwd_count, s.bwd_count, s.inc_count, s.dec_count, s.output_count, s.input_count, s.loop_count),
        (1, 1, 1, 1, 1, 1, 2)
    );
    assert_eq!(opcodes_size(&s), 7 + 7 + 6 + 6 + 23 + 23 + 36);
}

#[test]
fn opcodes_size_weights_each_kind() {
    let s = Stats {
        fwd_count: 1,
        bwd_count: 2,
        inc_count: 3,
        dec_count: 4,
        output_count: 5,
        input_count: 6,
        loop_count: 7,
    };
    assert_eq!(opcodes_size(&s), 7 + 14 + 18 + 24 + 115 + 138 + 126);
}

#[test]
fn generate_refuses_an_oversized_move() {
    assert!(generate(&vec![Expression::MoveForward(0x2000_0000)]).is_none());
    assert!(generate(&vec![Expression::Loop(vec![Expression::MoveBack(u32::MAX)])]).is_none());
    assert!(generate(&vec![Expression::MoveForward(0x1fff_ffff)]).is_some());
}

#[test]
fn move_template_scales_by_cell_width() {
    let plan = generate(&vec![Expression::MoveBack(5)]).unwrap();
    assert_eq!(straight_bytes(&plan.steps), vec![0x48, 0x81, 0xee, 20, 0, 0, 0, 0xc3]);
}

#[test]
fn generated_plans_pass_the_label_check() {
    for program in ["", "[]", "+[>[-]<[>+<-]]-[.]", "[[[[,]]]]"] {
        assert!(labels_resolved(&plan_of(program).steps));
    }
}

#[test]
fn label_check_rejects_broken_plans() {
    // Created but never attached.
    assert!(!labels_resolved(&vec![Emit::CreateLabel, Emit::JzLabel(0)]));
    // Attached twice.
    assert!(!labels_resolved(&vec![Emit::CreateLabel, Emit::AttachLabel(0), Emit::AttachLabel(0)]));
    // A jump to a label that was never created.
    assert!(!labels_resolved(&vec![Emit::CreateLabel, Emit::AttachLabel(0), Emit::JnzLabel(1)]));
    assert!(labels_resolved(&vec![Emit::CreateLabel, Emit::JnzLabel(0), Emit::AttachLabel(0)]));
    assert!(labels_resolved(&vec![Emit::Byte(0xc3)]));
}
