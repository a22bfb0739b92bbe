use scry_asm::{
    tokenize, AssemblyError, Consumed, Number, Outcome, Pass, Raw, Resolve, MAX_SOURCE,
};

fn chars(s: &str) -> Vec<char> {
    s.chars().collect()
}

fn matched(code: u16, tokens: usize) -> Outcome {
    Outcome::Matched { code, consumed: Consumed { tokens, chars: 0 } }
}

/// A symbol's value as the number of instructions it stands for, or the
/// outcome that reports the symbol as unknown.
fn steps(raw: &Raw, request: Resolve, less: i32) -> Result<i32, Outcome> {
    match raw.resolve(&request) {
        Ok(bytes) => Ok(bytes / 2 - less),
        Err(symbol) => Err(Outcome::UnknownSymbol(symbol.iter().collect())),
    }
}

fn ranged(code: u16, value: i32, max: i32, tokens: usize) -> Outcome {
    if value < 0 || value > max {
        Outcome::OutOfBound {
            actual: Number::from_i32(value),
            min: Number::from_i32(0),
            max: Number::from_i32(max),
        }
    } else {
        matched(code + value as u16, tokens)
    }
}

/// The parser of a small instruction set:
///
/// - `nop` is 0x0000;
/// - `inc =>N` is 0x1000 + N for N up to 255, where N is a number, a label,
///   which stands for the instructions between this one and the label, or
///   `from=>to`, which stands for the instructions from one label to the
///   other;
/// - `ret label` is 0x2000 + N for N up to 63, the instructions from here to
///   the label;
/// - `lda label` is 0x3000 + the offset of the label, up to 4095;
/// - `!` is 0x4000, and needs no white space around it;
/// - `dup =>A, =>B` is 0x5000 + 32 * A + B for numbers A and B up to 31.
fn parse(raw: &Raw, pending: &[String]) -> Outcome {
    let head = match pending.first() {
        Some(head) => head.as_str(),
        None => return Outcome::NoMatch,
    };
    if head.starts_with('!') {
        return Outcome::Matched { code: 0x4000, consumed: Consumed { tokens: 0, chars: 1 } };
    }
    if head == "nop" {
        return matched(0, 1);
    }
    let operand = match pending.get(1) {
        Some(operand) => operand.as_str(),
        None => return Outcome::NoMatch,
    };
    match head {
        "inc" => {
            let target = match operand.strip_prefix("=>") {
                Some(target) => target,
                None => return Outcome::NoMatch,
            };
            let value = if let Ok(number) = target.parse::<i32>() {
                Ok(number)
            } else if let Some((from, to)) = target.split_once("=>") {
                steps(raw, Resolve::Distance(&chars(from), &chars(to)), 0)
            } else {
                steps(raw, Resolve::DistanceFromCurrent(&chars(target)), 1)
            };
            match value {
                Ok(value) => ranged(0x1000, value, 255, 2),
                Err(outcome) => outcome,
            }
        }
        "ret" => match steps(raw, Resolve::DistanceFromCurrent(&chars(operand)), 0) {
            Ok(value) => ranged(0x2000, value, 63, 2),
            Err(outcome) => outcome,
        },
        "lda" => match raw.resolve(&Resolve::Address(&chars(operand))) {
            Ok(address) => ranged(0x3000, address, 4095, 2),
            Err(symbol) => Outcome::UnknownSymbol(symbol.iter().collect()),
        },
        "dup" => {
            let first = operand.strip_prefix("=>").and_then(|a| a.strip_suffix(','));
            let second = pending.get(2).and_then(|b| b.strip_prefix("=>"));
            match (first.map(str::parse::<u16>), second.map(str::parse::<u16>)) {
                (Some(Ok(a)), Some(Ok(b))) if a < 32 && b < 32 => matched(0x5000 + 32 * a + b, 3),
                _ => Outcome::NoMatch,
            }
        }
        _ => Outcome::NoMatch,
    }
}

fn assemble(source: &[&str]) -> Result<Vec<u8>, AssemblyError> {
    let mut raw = Raw::begin(source).unwrap();
    while raw.awaiting() {
        let pending = raw.pending();
        let outcome = parse(&raw, &pending);
        assert!(raw.offer(outcome));
    }
    raw.finish().unwrap()
}

fn codes(codes: &[u16]) -> Vec<u8> {
    let mut bytes = Vec::new();
    for code in codes {
        bytes.extend(code.to_le_bytes());
    }
    bytes
}

#[test]
fn empty_source_assembles_to_nothing() {
    assert_eq!(assemble(&[]), Ok(vec![]));
    assert_eq!(assemble(&["", " ; nothing here", "\t"]), Ok(vec![]));
}

#[test]
fn independent_instructions() {
    assert_eq!(
        assemble(&["inc =>4", "inc =>21", "nop", "inc =>100"]),
        Ok(codes(&[0x1004, 0x1015, 0x0000, 0x1064]))
    );
}

#[test]
fn instructions_take_two_bytes_each() {
    for n in 0..40 {
        let source = vec!["inc =>7"; n];
        let bytes = assemble(&source).unwrap();
        assert_eq!(bytes.len(), 2 * n);
        assert_eq!(bytes, codes(&vec![0x1007; n]));
    }
}

#[test]
fn code_is_emitted_low_byte_first() {
    assert_eq!(assemble(&["inc =>52"]), Ok(vec![0x34, 0x10]));
    assert_eq!(assemble(&["!"]), Ok(vec![0x00, 0x40]));
}

#[test]
fn output_to_next() {
    assert_eq!(
        assemble(&["inc =>instr2", "inc =>instr2", "instr2:", "dup =>3, =>16"]),
        Ok(codes(&[0x1001, 0x1000, 0x5070]))
    );
}

#[test]
fn forward_reference() {
    assert_eq!(
        assemble(&["inc =>instr2 \n inc =>instr2 \n instr2: dup =>3, =>16"]),
        Ok(codes(&[0x1001, 0x1000, 0x5070]))
    );
}

#[test]
fn multiple_label_targets() {
    assert_eq!(
        assemble(&[
            "inc =>instr",
            "instr:",
            "inc =>instr2",
            "inc =>instr2",
            "instr2:",
            "inc =>instr3",
            "inc =>instr3",
            "inc =>instr3",
            "inc =>instr3",
            "instr3:",
            "inc =>28",
        ]),
        Ok(codes(&[0x1000, 0x1001, 0x1000, 0x1003, 0x1002, 0x1001, 0x1000, 0x101c]))
    );
}

#[test]
fn labels_resolve_the_same_before_and_after_their_declaration() {
    assert_eq!(
        assemble(&["lda here", "lda there", "here:", "lda here", "lda there", "there:", "lda here", "lda there"]),
        Ok(codes(&[0x3004, 0x3008, 0x3004, 0x3008, 0x3004, 0x3008]))
    );
}

#[test]
fn distance_between_labels_in_an_instruction() {
    assert_eq!(
        assemble(&["inc =>at=>to", "nop", "at:", "nop", "nop", "nop", "to:", "nop"]),
        Ok(codes(&[0x1003, 0, 0, 0, 0, 0]))
    );
}

#[test]
fn bytes_assembler_directive() {
    let mut expected = Vec::new();
    expected.extend(0u8.to_le_bytes());
    expected.extend(1i8.to_le_bytes());
    expected.extend(0x1004u16.to_le_bytes());
    expected.extend(2456u16.to_le_bytes());
    expected.extend(123762u32.to_le_bytes());
    expected.extend(0x1015u16.to_le_bytes());
    expected.extend((-123i16).to_le_bytes());
    expected.extend((-7612i32).to_le_bytes());
    expected.extend(0x1064u16.to_le_bytes());
    assert_eq!(
        assemble(&[
            ".bytes u0, 0",
            ".bytes i0, 1",
            "inc =>4",
            ".bytes u1, 2456",
            ".bytes u2, 123762",
            "inc =>21",
            ".bytes i1, -123",
            ".bytes i2, -7612",
            "inc =>100",
        ]),
        Ok(expected)
    );
}

#[test]
fn bytes_assembler_directive_references() {
    let mut expected = Vec::new();
    expected.extend(2u8.to_le_bytes());
    expected.extend((-2i8).to_le_bytes());
    expected.extend(0x1004u16.to_le_bytes());
    expected.extend(18u16.to_le_bytes());
    expected.extend(8u32.to_le_bytes());
    expected.extend(0x1015u16.to_le_bytes());
    expected.extend(6i16.to_le_bytes());
    expected.extend((-18i32).to_le_bytes());
    expected.extend(0x1064u16.to_le_bytes());
    assert_eq!(
        assemble(&[
            "lab0:",
            ".bytes u0, lab2",
            ".bytes i0, lab4=>lab2",
            "lab2:",
            "inc =>4",
            "lab4:",
            ".bytes u1, lab18",
            ".bytes u2, lab4=>lab12",
            "inc =>21",
            "lab12:",
            ".bytes i1, lab12=>lab18",
            ".bytes i2, lab18=>lab0",
            "lab18:",
            "inc =>100",
        ]),
        Ok(expected)
    );
}

#[test]
fn distance_directive_in_a_layout() {
    let source = [
        ".bytes u3, 0",
        "lab4:",
        ".bytes u3, 0",
        "lab12:",
        ".bytes u1, lab4=>lab12",
    ];
    let bytes = assemble(&source).unwrap();
    assert_eq!(bytes.len(), 18);
    assert_eq!(bytes[16..], [8, 0]);
}

#[test]
fn bytes_followed_by_label_reference() {
    assert_eq!(
        assemble(&[".bytes u1, 0", "inc =>dup_addr", "dup_addr:", "nop"]),
        Ok(vec![0, 0, 0x00, 0x10, 0, 0])
    );
}

#[test]
fn sixteen_byte_values_move_the_offsets() {
    assert_eq!(
        assemble(&["lda end .bytes i4, -2 end: lda end"]),
        Ok([&[0x12, 0x30][..], &(-2i128).to_le_bytes(), &[0x12, 0x30]].concat())
    );
}

#[test]
fn ret_trigger_before_instr() {
    let error = assemble(&["before_ret:", "inc =>0", "ret before_ret"]).unwrap_err();
    assert_eq!(
        error,
        AssemblyError::OutOfBoundValue {
            actual: Number::from_i32(-1),
            min: Number::from_i32(0),
            max: Number::from_i32(63),
        }
    );
    assert_eq!(error.message(), "Invalid Value (Should be 0 - 63): -1");
}

#[test]
fn const_invalid_label() {
    let error = assemble(&["lda cmp_fn_addr"]).unwrap_err();
    assert_eq!(error, AssemblyError::UnknownSymbol("cmp_fn_addr".to_string()));
    assert_eq!(error.message(), "Unknown label: cmp_fn_addr");
}

#[test]
fn duplicate_label() {
    let error = assemble(&["foo:", "nop", "foo:", "nop"]).unwrap_err();
    assert_eq!(error, AssemblyError::DuplicateLabel("foo".to_string()));
    assert_eq!(error.message(), "'foo' defined twice");
    assert_eq!(
        assemble(&["nop bar: foo:bar:"]),
        Err(AssemblyError::DuplicateLabel("bar".to_string()))
    );
}

#[test]
fn duplicate_label_is_found_before_anything_is_resolved() {
    assert_eq!(
        assemble(&[".bytes u0, doesnotexist", "foo:", "foo:"]),
        Err(AssemblyError::DuplicateLabel("foo".to_string()))
    );
}

#[test]
fn unknown_symbol_in_directive() {
    assert_eq!(
        assemble(&[".bytes u0, doesnotexist"]),
        Err(AssemblyError::UnknownSymbol("doesnotexist".to_string()))
    );
    assert_eq!(
        assemble(&["here:", ".bytes u0, here=>there"]),
        Err(AssemblyError::UnknownSymbol("there".to_string()))
    );
}

#[test]
fn out_of_bound_literal_in_directive() {
    assert_eq!(
        assemble(&["nop", ".bytes i0, 200"]),
        Err(AssemblyError::OutOfBoundValue {
            actual: Number::from_i32(200),
            min: Number::from_i32(-129),
            max: Number::from_i32(128),
        })
    );
}

#[test]
fn out_of_bound_address_in_directive() {
    assert_eq!(
        assemble(&[".bytes u4, 0", ".bytes u4, 0", "far:", ".bytes u0, here=>far", "here:"]),
        Err(AssemblyError::OutOfBoundValue {
            actual: Number::from_i32(-1),
            min: Number::from_i32(0),
            max: Number::from_i32(255),
        })
    );
    assert_eq!(
        assemble(&[".bytes u4, 0", ".bytes u4, 0", "far:", ".bytes i0, here=>far", "here:"]),
        Ok([&[0u8; 32][..], &[0xff]].concat())
    );
}

#[test]
fn stuck_where_nothing_matches() {
    assert_eq!(assemble(&["bogus"]), Err(AssemblyError::AssemblyStuck("bogus".to_string())));
    assert_eq!(
        assemble(&["nop", "inc", "nop"]),
        Err(AssemblyError::AssemblyStuck("inc".to_string()))
    );
    assert_eq!(
        assemble(&["nop", "lab:", "nop what =>4", "end:"]),
        Err(AssemblyError::AssemblyStuck("what".to_string()))
    );
}

#[test]
fn stuck_inside_a_token() {
    let error = assemble(&["!!?!"]).unwrap_err();
    assert_eq!(error, AssemblyError::AssemblyStuck("?!".to_string()));
    assert_eq!(error.message(), "Unable to assemble: ?!");
}

#[test]
fn directive_without_value_is_stuck() {
    assert_eq!(
        assemble(&["nop", ".bytes u0, %"]),
        Err(AssemblyError::AssemblyStuck(".bytes".to_string()))
    );
    assert_eq!(
        assemble(&[".bytes u0,", "label:", "5"]),
        Err(AssemblyError::AssemblyStuck(".bytes".to_string()))
    );
}

#[test]
fn instructions_may_share_a_token() {
    assert_eq!(assemble(&["!!!"]), Ok(codes(&[0x4000, 0x4000, 0x4000])));
    assert_eq!(assemble(&["!nop !!inc =>1"]), Ok(codes(&[0x4000, 0, 0x4000, 0x4000, 0x1001])));
    assert_eq!(
        assemble(&["!.bytes u0,5!.bytes u0, 6!nop"]),
        Ok(vec![0, 0x40, 5, 0, 0x40, 6, 0, 0x40, 0, 0])
    );
}

#[test]
fn labels_count_what_shares_a_token() {
    assert_eq!(
        assemble(&["lda end !!! end: lda end"]),
        Ok(codes(&[0x3008, 0x4000, 0x4000, 0x4000, 0x3008]))
    );
}

#[test]
fn label_without_name_declares_nothing() {
    assert_eq!(assemble(&["nop : nop :: nop"]), Ok(codes(&[0, 0, 0])));
}

#[test]
fn filler_does_not_change_the_bytes() {
    let plain = assemble(&["inc =>end lab: .bytes u1, lab=>end nop end: lda lab"]).unwrap();
    assert_eq!(plain, vec![0x02, 0x10, 4, 0, 0, 0, 0x02, 0x30]);
    assert_eq!(
        assemble(&["inc\t=>end\r\nlab:\n\n.bytes   u1,\u{2003}lab=>end\rnop\u{a0}end:lda lab"]),
        Ok(plain.clone())
    );
    assert_eq!(
        assemble(&[
            ";first\ninc;x\n=>end ; y ;; z\r lab:;\r\n.bytes;a:b\nu1,;,\nlab=>end;\nnop; nop\nend:;\nlda;\nlab;"
        ]),
        Ok(plain.clone())
    );
    assert_eq!(
        assemble(&["inc", "=>end", "lab:", ".bytes", "u1,", "lab=>end", "nop", "end:", "lda", "lab"]),
        Ok(plain)
    );
}

#[test]
fn assembly_begins_in_the_measure_pass() {
    let raw = Raw::new(tokenize(&["lab: inc =>lab nop", "next:", "nop"]));
    assert!(raw.awaiting());
    assert_eq!(raw.pass(), Pass::Measure);
    assert_eq!(raw.byte_count(), 0);
    assert_eq!(raw.pending(), vec!["inc", "=>lab", "nop"]);
    assert_eq!(raw.resolve(&Resolve::Address(&chars("lab"))), Ok(2));
    assert_eq!(raw.resolve(&Resolve::DistanceFromCurrent(&chars("nowhere"))), Ok(2));
    assert_eq!(raw.finish(), None);
}

#[test]
fn second_pass_resolves_against_the_table() {
    let mut raw = Raw::new(tokenize(&[".bytes u2, 9 lab: inc =>lab nop", "next:", "nop"]));
    assert_eq!(raw.byte_count(), 4);
    raw.advance(matched(0x1000, 2));
    assert_eq!(raw.pending(), vec!["nop"]);
    assert_eq!(raw.byte_count(), 6);
    raw.advance(matched(0, 1));
    assert_eq!(raw.pending(), vec!["nop"]);
    assert_eq!(raw.byte_count(), 8);
    assert_eq!(raw.pass(), Pass::Measure);
    raw.advance(matched(0, 1));
    assert_eq!(raw.pass(), Pass::Emit);
    assert_eq!(raw.byte_count(), 4);
    assert_eq!(raw.pending(), vec!["inc", "=>lab", "nop"]);
    assert_eq!(raw.resolve(&Resolve::Address(&chars("lab"))), Ok(4));
    assert_eq!(raw.resolve(&Resolve::Address(&chars("next"))), Ok(8));
    assert_eq!(raw.resolve(&Resolve::DistanceFromCurrent(&chars("next"))), Ok(4));
    assert_eq!(raw.resolve(&Resolve::Distance(&chars("next"), &chars("lab"))), Ok(-4));
    let nowhere = chars("nowhere");
    assert_eq!(raw.resolve(&Resolve::Address(&nowhere)), Err(&nowhere[..]));
    raw.advance(matched(0x1234, 2));
    raw.advance(matched(0x5678, 1));
    assert_eq!(raw.resolve(&Resolve::DistanceFromCurrent(&chars("lab"))), Ok(-4));
    assert!(raw.awaiting());
    raw.advance(matched(0x9abc, 1));
    assert!(!raw.awaiting());
    assert_eq!(
        raw.finish(),
        Some(Ok(vec![9, 0, 0, 0, 0x34, 0x12, 0x78, 0x56, 0xbc, 0x9a]))
    );
}

#[test]
fn outcome_must_stay_inside_the_pending_tokens() {
    let raw = Raw::new(tokenize(&["abc de L: fgh"]));
    assert_eq!(raw.pending(), vec!["abc", "de"]);
    let reach = |tokens, chars| Outcome::Matched { code: 0, consumed: Consumed { tokens, chars } };
    assert!(!raw.accepts(&reach(0, 0)));
    assert!(raw.accepts(&reach(0, 1)));
    assert!(raw.accepts(&reach(0, 3)));
    assert!(!raw.accepts(&reach(0, 4)));
    assert!(raw.accepts(&reach(1, 0)));
    assert!(raw.accepts(&reach(1, 2)));
    assert!(!raw.accepts(&reach(1, 3)));
    assert!(raw.accepts(&reach(2, 0)));
    assert!(!raw.accepts(&reach(2, 1)));
    assert!(!raw.accepts(&reach(3, 0)));
    assert!(raw.accepts(&Outcome::NoMatch));
    assert!(raw.accepts(&Outcome::UnknownSymbol("x".to_string())));
}

#[test]
fn cursor_never_rests_at_the_end_of_a_token() {
    let mut raw = Raw::new(tokenize(&["abc de L: fgh"]));
    raw.advance(Outcome::Matched { code: 0, consumed: Consumed { tokens: 0, chars: 2 } });
    assert_eq!(raw.pending(), vec!["c", "de"]);
    raw.advance(Outcome::Matched { code: 0, consumed: Consumed { tokens: 0, chars: 1 } });
    assert_eq!(raw.pending(), vec!["de"]);
    raw.advance(Outcome::Matched { code: 0, consumed: Consumed { tokens: 0, chars: 2 } });
    assert_eq!(raw.pending(), vec!["fgh"]);
    assert_eq!(raw.byte_count(), 6);
    raw.advance(Outcome::Matched { code: 0, consumed: Consumed { tokens: 1, chars: 0 } });
    assert_eq!(raw.pass(), Pass::Emit);
    assert_eq!(raw.pending(), vec!["abc", "de"]);
    raw.advance(Outcome::Matched { code: 1, consumed: Consumed { tokens: 1, chars: 1 } });
    assert_eq!(raw.pending(), vec!["e"]);
    assert_eq!(raw.resolve(&Resolve::Address(&chars("L"))), Ok(6));
}

#[test]
fn first_pass_gives_up_a_group_where_nothing_matches() {
    let mut raw = Raw::new(tokenize(&["nop junk more L: nop"]));
    raw.advance(matched(0, 1));
    assert_eq!(raw.pending(), vec!["junk", "more"]);
    raw.advance(Outcome::NoMatch);
    assert_eq!(raw.pass(), Pass::Measure);
    assert_eq!(raw.pending(), vec!["nop"]);
    assert_eq!(raw.byte_count(), 2);
    raw.advance(matched(0, 1));
    assert_eq!(raw.pass(), Pass::Emit);
    assert_eq!(raw.resolve(&Resolve::Address(&chars("L"))), Ok(2));
    raw.advance(matched(0, 1));
    assert_eq!(raw.pending(), vec!["junk", "more"]);
    raw.advance(Outcome::NoMatch);
    assert!(!raw.awaiting());
    assert_eq!(raw.finish(), Some(Err(AssemblyError::AssemblyStuck("junk".to_string()))));
}

#[test]
fn errors_of_an_instruction_end_the_assembly() {
    let mut raw = Raw::new(tokenize(&["nop nop"]));
    raw.advance(Outcome::UnknownSymbol("sym".to_string()));
    assert!(!raw.awaiting());
    assert_eq!(raw.finish(), Some(Err(AssemblyError::UnknownSymbol("sym".to_string()))));
    let mut raw = Raw::new(tokenize(&["nop nop"]));
    let (actual, min, max) = (Number::from_i32(64), Number::from_i32(0), Number::from_i32(63));
    raw.advance(Outcome::OutOfBound { actual, min, max });
    assert_eq!(raw.finish(), Some(Err(AssemblyError::OutOfBoundValue { actual, min, max })));
}

#[test]
fn begin_is_new_on_the_tokens_of_the_source() {
    let source = ["lab: inc =>lab", ".bytes u0, 1 nop"];
    let begun = Raw::begin(&source).unwrap();
    let tokens = tokenize(&source);
    assert!(tokens.source_size() <= MAX_SOURCE);
    let made = Raw::new(tokens);
    assert_eq!(begun.pending(), made.pending());
    assert_eq!(begun.pending(), vec!["inc", "=>lab", ".bytes", "u0,", "1", "nop"]);
    assert_eq!(begun.pass(), made.pass());
    assert_eq!(begun.byte_count(), made.byte_count());
}

#[test]
fn offer_takes_only_what_advance_admits() {
    let mut raw = Raw::begin(&["abc de"]).unwrap();
    assert!(!raw.offer(Outcome::Matched { code: 7, consumed: Consumed { tokens: 0, chars: 0 } }));
    assert!(!raw.offer(Outcome::Matched { code: 7, consumed: Consumed { tokens: 3, chars: 0 } }));
    assert!(!raw.offer(Outcome::Matched { code: 7, consumed: Consumed { tokens: 1, chars: 3 } }));
    assert_eq!(raw.pending(), vec!["abc", "de"]);
    assert_eq!(raw.byte_count(), 0);
    assert!(raw.offer(matched(7, 2)));
    assert_eq!(raw.pass(), Pass::Emit);
    assert!(raw.offer(matched(7, 2)));
    assert!(!raw.awaiting());
    assert!(!raw.offer(matched(7, 1)));
    assert!(!raw.offer(Outcome::NoMatch));
    assert_eq!(raw.finish(), Some(Ok(vec![7, 0])));
}
