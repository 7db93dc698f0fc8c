use runes::artifact::Artifact;
use runes::cenotaph::Cenotaph;
use runes::edict::Edict;
use runes::etching::Etching;
use runes::flaw::Flaw;
use runes::rune::Rune;
use runes::rune_id::RuneId;
use runes::runestone::{Payload, Runestone, MAX_SCRIPT_ELEMENT_SIZE, OP_RETURN};
use runes::terms::Terms;
use runes::transaction::{Instruction, Script, Transaction};
use runes::varint;

fn id(block: u64, tx: u32) -> RuneId {
    RuneId { block, tx }
}

fn bytes_of(integers: &[u128]) -> Vec<u8> {
    let mut bytes = Vec::new();
    for n in integers {
        varint::encode_to_vec(*n, &mut bytes);
    }
    bytes
}

fn script(instructions: Vec<Instruction>) -> Script {
    Script { instructions, malformed: false }
}

fn carrier(payload: Vec<u8>) -> Script {
    script(vec![
        Instruction::Op(OP_RETURN),
        Instruction::Op(Runestone::MAGIC_NUMBER),
        Instruction::PushBytes(payload),
    ])
}

fn other() -> Script {
    script(vec![Instruction::Op(0x76), Instruction::Op(0xa9), Instruction::PushBytes(vec![0; 20])])
}

fn decipher(integers: &[u128]) -> Option<Artifact> {
    Runestone::decipher(&Transaction { output: vec![carrier(bytes_of(integers))] })
}

fn cenotaph(flaw: Flaw) -> Option<Artifact> {
    Some(Artifact::Cenotaph(Cenotaph { flaw: Some(flaw), ..Cenotaph::default() }))
}

fn runestone(runestone: Runestone) -> Option<Artifact> {
    Some(Artifact::Runestone(runestone))
}

fn round_trip(runestone: &Runestone, outputs_after: usize) -> Option<Artifact> {
    let mut output = vec![runestone.encipher()];
    for _ in 0..outputs_after {
        output.push(other());
    }
    Runestone::decipher(&Transaction { output })
}

fn full_etching() -> Etching {
    Etching {
        divisibility: Some(7),
        premine: Some(8),
        rune: Some(Rune(9)),
        spacers: Some(10),
        symbol: Some('@'),
        terms: Some(Terms {
            amount: Some(14),
            cap: Some(11),
            height: (Some(12), Some(13)),
            offset: (Some(15), Some(16)),
        }),
        turbo: true,
    }
}

#[test]
fn constants_of_the_protocol() {
    assert_eq!(OP_RETURN, 0x6a);
    assert_eq!(Runestone::MAGIC_NUMBER, 0x5d);
    assert_eq!(Runestone::COMMIT_CONFIRMATIONS, 6);
    assert_eq!(MAX_SCRIPT_ELEMENT_SIZE, 520);
}

#[test]
fn a_transaction_without_outputs_carries_nothing() {
    assert_eq!(Runestone::decipher(&Transaction { output: Vec::new() }), None);
}

#[test]
fn a_transaction_without_a_carrier_carries_nothing() {
    let transaction = Transaction {
        output: vec![
            other(),
            script(Vec::new()),
            script(vec![Instruction::Op(OP_RETURN)]),
            script(vec![Instruction::Op(OP_RETURN), Instruction::PushBytes(vec![1, 2])]),
            script(vec![Instruction::Op(OP_RETURN), Instruction::Op(0x5c)]),
            script(vec![Instruction::Op(Runestone::MAGIC_NUMBER), Instruction::Op(OP_RETURN)]),
            script(vec![Instruction::PushBytes(vec![0x6a]), Instruction::Op(Runestone::MAGIC_NUMBER)]),
        ],
    };
    assert_eq!(Runestone::payload(&transaction), None);
    assert_eq!(Runestone::decipher(&transaction), None);
}

#[test]
fn scripts_that_break_before_the_magic_number_are_passed_over() {
    let transaction = Transaction {
        output: vec![
            Script { instructions: Vec::new(), malformed: true },
            Script { instructions: vec![Instruction::Op(OP_RETURN)], malformed: true },
            carrier(bytes_of(&[20, 1, 20, 2])),
        ],
    };
    assert_eq!(
        Runestone::decipher(&transaction),
        runestone(Runestone { mint: Some(id(1, 2)), ..Runestone::default() }),
    );
}

#[test]
fn a_carrier_without_pushes_is_an_empty_runestone() {
    let transaction = Transaction {
        output: vec![script(vec![Instruction::Op(OP_RETURN), Instruction::Op(Runestone::MAGIC_NUMBER)])],
    };
    assert_eq!(Runestone::payload(&transaction), Some(Payload::Valid(Vec::new())));
    assert_eq!(Runestone::decipher(&transaction), runestone(Runestone::default()));
}

#[test]
fn pushes_are_joined() {
    let transaction = Transaction {
        output: vec![script(vec![
            Instruction::Op(OP_RETURN),
            Instruction::Op(Runestone::MAGIC_NUMBER),
            Instruction::PushBytes(vec![20]),
            Instruction::PushBytes(Vec::new()),
            Instruction::PushBytes(vec![1, 20]),
            Instruction::PushBytes(vec![2]),
        ])],
    };
    assert_eq!(Runestone::payload(&transaction), Some(Payload::Valid(vec![20, 1, 20, 2])));
    assert_eq!(
        Runestone::decipher(&transaction),
        runestone(Runestone { mint: Some(id(1, 2)), ..Runestone::default() }),
    );
}

#[test]
fn an_opcode_after_the_magic_number_is_a_flaw() {
    let transaction = Transaction {
        output: vec![script(vec![
            Instruction::Op(OP_RETURN),
            Instruction::Op(Runestone::MAGIC_NUMBER),
            Instruction::PushBytes(vec![20, 1, 20, 2]),
            Instruction::Op(0x51),
        ])],
    };
    assert_eq!(Runestone::payload(&transaction), Some(Payload::Invalid(Flaw::Opcode)));
    assert_eq!(Runestone::decipher(&transaction), cenotaph(Flaw::Opcode));
}

#[test]
fn a_script_that_breaks_after_the_magic_number_is_a_flaw() {
    let transaction = Transaction {
        output: vec![Script {
            instructions: vec![
                Instruction::Op(OP_RETURN),
                Instruction::Op(Runestone::MAGIC_NUMBER),
                Instruction::PushBytes(vec![20, 1, 20, 2]),
            ],
            malformed: true,
        }],
    };
    assert_eq!(Runestone::payload(&transaction), Some(Payload::Invalid(Flaw::InvalidScript)));
    assert_eq!(Runestone::decipher(&transaction), cenotaph(Flaw::InvalidScript));
}

#[test]
fn an_opcode_comes_before_the_break() {
    let transaction = Transaction {
        output: vec![Script {
            instructions: vec![
                Instruction::Op(OP_RETURN),
                Instruction::Op(Runestone::MAGIC_NUMBER),
                Instruction::Op(0x51),
            ],
            malformed: true,
        }],
    };
    assert_eq!(Runestone::decipher(&transaction), cenotaph(Flaw::Opcode));
}

#[test]
fn the_first_carrier_is_read() {
    let transaction = Transaction {
        output: vec![other(), carrier(bytes_of(&[22, 1])), carrier(bytes_of(&[22, 2]))],
    };
    assert_eq!(
        Runestone::decipher(&transaction),
        runestone(Runestone { pointer: Some(1), ..Runestone::default() }),
    );
}

#[test]
fn a_flawed_first_carrier_hides_the_next() {
    let transaction = Transaction {
        output: vec![carrier(vec![0x80]), carrier(bytes_of(&[22, 1]))],
    };
    assert_eq!(Runestone::decipher(&transaction), cenotaph(Flaw::Varint));
}

#[test]
fn integers_of_a_payload() {
    assert_eq!(Runestone::integers(&[]), Ok(Vec::new()));
    assert_eq!(Runestone::integers(&[0]), Ok(vec![0]));
    assert_eq!(Runestone::integers(&[1, 0x80, 0x01, 0xac, 0x02, 0x7f]), Ok(vec![1, 128, 300, 127]));
    assert_eq!(Runestone::integers(&[1, 0x80]), Err(varint::Error::Unterminated));
    assert_eq!(Runestone::integers(&[0x80; 20]), Err(varint::Error::Overlong));
    let mut overflow = vec![1];
    overflow.extend_from_slice(&[0xff; 18]);
    overflow.push(0x04);
    assert_eq!(Runestone::integers(&overflow), Err(varint::Error::Overflow));
}

#[test]
fn a_varint_that_never_ends_gives_a_bare_cenotaph() {
    let mut payload = bytes_of(&[20, 1, 20, 2, 2, 1, 4, 99]);
    payload.extend_from_slice(&[0x80; 19]);
    let transaction = Transaction { output: vec![carrier(payload)] };
    assert_eq!(
        Runestone::decipher(&transaction),
        Some(Artifact::Cenotaph(Cenotaph { etching: None, flaw: Some(Flaw::Varint), mint: None })),
    );
    let transaction = Transaction { output: vec![carrier(vec![0x80; 20])] };
    assert_eq!(Runestone::decipher(&transaction), cenotaph(Flaw::Varint));
}

#[test]
fn an_unknown_even_key_is_a_flaw() {
    assert_eq!(decipher(&[100, 0]), cenotaph(Flaw::UnrecognizedEvenTag));
    assert_eq!(decipher(&[126, 0]), cenotaph(Flaw::UnrecognizedEvenTag));
    assert_eq!(
        decipher(&[20, 1, 20, 2, 100, 0, 0, 1, 1, 5, 0]),
        Some(Artifact::Cenotaph(Cenotaph {
            etching: None,
            flaw: Some(Flaw::UnrecognizedEvenTag),
            mint: Some(id(1, 2)),
        })),
    );
}

#[test]
fn an_unknown_odd_key_is_passed_over() {
    assert_eq!(decipher(&[101, 0]), runestone(Runestone::default()));
    assert_eq!(decipher(&[127, 100]), runestone(Runestone::default()));
    assert_eq!(
        decipher(&[20, 1, 20, 2, 101, 0, 0, 1, 1, 5, 0]),
        runestone(Runestone {
            edicts: vec![Edict { id: id(1, 1), amount: 5, output: 0 }],
            mint: Some(id(1, 2)),
            ..Runestone::default()
        }),
    );
}

#[test]
fn a_supply_beyond_128_bits_is_a_flaw_that_keeps_the_name() {
    assert_eq!(
        decipher(&[2, 3, 4, 77, 6, u128::MAX, 8, 1, 10, 1, 20, 3, 20, 4, 0, 1, 1, 5, 0]),
        Some(Artifact::Cenotaph(Cenotaph {
            etching: Some(Rune(77)),
            flaw: Some(Flaw::SupplyOverflow),
            mint: Some(id(3, 4)),
        })),
    );
    assert_eq!(
        decipher(&[2, 3, 6, u128::MAX, 8, 1, 10, 1]),
        Some(Artifact::Cenotaph(Cenotaph {
            etching: None,
            flaw: Some(Flaw::SupplyOverflow),
            mint: None,
        })),
    );
}

#[test]
fn the_largest_supply_is_no_flaw() {
    assert_eq!(
        decipher(&[2, 3, 6, u128::MAX - 1, 8, 1, 10, 1]),
        runestone(Runestone {
            etching: Some(Etching {
                premine: Some(u128::MAX - 1),
                terms: Some(Terms { amount: Some(1), cap: Some(1), ..Terms::default() }),
                ..Etching::default()
            }),
            ..Runestone::default()
        }),
    );
}

#[test]
fn a_flag_that_is_left_is_a_flaw() {
    assert_eq!(decipher(&[2, 8]), cenotaph(Flaw::UnrecognizedFlag));
    assert_eq!(decipher(&[2, 1 << 127]), cenotaph(Flaw::UnrecognizedFlag));
    assert_eq!(
        decipher(&[2, 9, 4, 5]),
        Some(Artifact::Cenotaph(Cenotaph {
            etching: Some(Rune(5)),
            flaw: Some(Flaw::UnrecognizedFlag),
            mint: None,
        })),
    );
}

#[test]
fn flags_of_an_etching_without_the_etching_are_left() {
    assert_eq!(decipher(&[2, 2]), cenotaph(Flaw::UnrecognizedFlag));
    assert_eq!(decipher(&[2, 4]), cenotaph(Flaw::UnrecognizedFlag));
}

#[test]
fn fields_of_an_etching_without_the_etching_are_left() {
    assert_eq!(decipher(&[4, 5]), cenotaph(Flaw::UnrecognizedEvenTag));
    assert_eq!(decipher(&[2, 0, 6, 5]), cenotaph(Flaw::UnrecognizedEvenTag));
    assert_eq!(decipher(&[1, 5]), runestone(Runestone::default()));
}

#[test]
fn fields_of_terms_without_the_terms_are_left() {
    assert_eq!(
        decipher(&[2, 1, 8, 5]),
        Some(Artifact::Cenotaph(Cenotaph { etching: None, flaw: Some(Flaw::UnrecognizedEvenTag), mint: None })),
    );
}

#[test]
fn a_second_value_under_an_even_key_is_left() {
    assert_eq!(
        decipher(&[2, 1, 4, 5, 4, 6]),
        Some(Artifact::Cenotaph(Cenotaph {
            etching: Some(Rune(5)),
            flaw: Some(Flaw::UnrecognizedEvenTag),
            mint: None,
        })),
    );
    assert_eq!(
        decipher(&[2, 1, 1, 5, 1, 6]),
        runestone(Runestone {
            etching: Some(Etching { divisibility: Some(5), ..Etching::default() }),
            ..Runestone::default()
        }),
    );
}

#[test]
fn the_flaw_of_the_reading_comes_first() {
    assert_eq!(
        decipher(&[2, 9, 100, 0, 6, u128::MAX, 8, 2, 10, 2, 4]),
        cenotaph(Flaw::TruncatedField),
    );
    assert_eq!(decipher(&[100, 0, 0, 1, 1, 5]), cenotaph(Flaw::TrailingIntegers));
    assert_eq!(decipher(&[100, 0, 0, 0, 1, 5, 0]), cenotaph(Flaw::EdictRuneId));
    assert_eq!(decipher(&[100, 0, 0, 1, 1, 5, 1 << 32]), cenotaph(Flaw::EdictOutput));
}

#[test]
fn the_supply_comes_before_flags_and_keys() {
    assert_eq!(
        decipher(&[2, 11, 100, 0, 6, u128::MAX, 8, 2, 10, 2]),
        cenotaph(Flaw::SupplyOverflow),
    );
    assert_eq!(decipher(&[2, 8, 100, 0]), cenotaph(Flaw::UnrecognizedFlag));
}

#[test]
fn a_cenotaph_keeps_no_edicts_and_no_pointer() {
    assert_eq!(
        decipher(&[2, 1, 4, 5, 22, 0, 20, 1, 20, 2, 0, 1, 1, 5, 0, 0, 0]),
        Some(Artifact::Cenotaph(Cenotaph {
            etching: Some(Rune(5)),
            flaw: Some(Flaw::TrailingIntegers),
            mint: Some(id(1, 2)),
        })),
    );
}

#[test]
fn values_out_of_bounds_are_absent() {
    let etching = |etching: Etching| runestone(Runestone { etching: Some(etching), ..Runestone::default() });
    assert_eq!(decipher(&[2, 1, 1, 38]), etching(Etching { divisibility: Some(38), ..Etching::default() }));
    assert_eq!(decipher(&[2, 1, 1, 39]), etching(Etching::default()));
    assert_eq!(decipher(&[2, 1, 1, 256]), etching(Etching::default()));
    assert_eq!(
        decipher(&[2, 1, 3, 0x07ff_ffff]),
        etching(Etching { spacers: Some(0x07ff_ffff), ..Etching::default() }),
    );
    assert_eq!(decipher(&[2, 1, 3, 0x0800_0000]), etching(Etching::default()));
    assert_eq!(decipher(&[2, 1, 5, 0x61]), etching(Etching { symbol: Some('a'), ..Etching::default() }));
    assert_eq!(decipher(&[2, 1, 5, 0x10ffff]), etching(Etching { symbol: Some('\u{10ffff}'), ..Etching::default() }));
    assert_eq!(decipher(&[2, 1, 5, 0x110000]), etching(Etching::default()));
    assert_eq!(decipher(&[2, 1, 5, 0xd800]), etching(Etching::default()));
    assert_eq!(decipher(&[2, 1, 5, u128::from(u32::MAX) + 0x62]), etching(Etching::default()));
    assert_eq!(
        decipher(&[2, 3, 12, u128::from(u64::MAX), 14, u128::from(u64::MAX) + 1]),
        etching(Etching {
            terms: Some(Terms { height: (Some(u64::MAX), None), ..Terms::default() }),
            ..Etching::default()
        }),
    );
    assert_eq!(
        decipher(&[2, 3, 16, u128::from(u64::MAX) + 1, 18, 4]),
        etching(Etching {
            terms: Some(Terms { offset: (None, Some(4)), ..Terms::default() }),
            ..Etching::default()
        }),
    );
}

#[test]
fn an_edict_may_name_any_output() {
    assert_eq!(
        decipher(&[0, 1, 1, 5, 7]),
        runestone(Runestone {
            edicts: vec![Edict { id: id(1, 1), amount: 5, output: 7 }],
            ..Runestone::default()
        }),
    );
}

#[test]
fn a_pointer_must_name_an_output() {
    assert_eq!(decipher(&[22, 0]), runestone(Runestone { pointer: Some(0), ..Runestone::default() }));
    assert_eq!(decipher(&[22, 1]), runestone(Runestone::default()));
    assert_eq!(decipher(&[22, u128::from(u32::MAX) + 1]), runestone(Runestone::default()));
    let transaction = Transaction { output: vec![other(), carrier(bytes_of(&[22, 1])), other()] };
    assert_eq!(
        Runestone::decipher(&transaction),
        runestone(Runestone { pointer: Some(1), ..Runestone::default() }),
    );
    let transaction = Transaction { output: vec![other(), carrier(bytes_of(&[22, 3])), other()] };
    assert_eq!(Runestone::decipher(&transaction), runestone(Runestone::default()));
}

#[test]
fn a_mint_must_be_a_well_formed_identifier() {
    assert_eq!(decipher(&[20, 1, 20, 2]), runestone(Runestone { mint: Some(id(1, 2)), ..Runestone::default() }));
    assert_eq!(decipher(&[20, 0, 20, 0]), runestone(Runestone { mint: Some(id(0, 0)), ..Runestone::default() }));
    assert_eq!(decipher(&[20, 0, 20, 1]), runestone(Runestone::default()));
    assert_eq!(decipher(&[20, 1]), runestone(Runestone::default()));
    assert_eq!(decipher(&[20, u128::from(u64::MAX) + 1, 20, 1]), runestone(Runestone::default()));
    assert_eq!(decipher(&[20, 1, 20, u128::from(u32::MAX) + 1]), runestone(Runestone::default()));
    assert_eq!(
        decipher(&[20, 1, 20, 2, 20, 3]),
        Some(Artifact::Cenotaph(Cenotaph {
            etching: None,
            flaw: Some(Flaw::UnrecognizedEvenTag),
            mint: Some(id(1, 2)),
        })),
    );
}

#[test]
fn a_full_message_is_read() {
    assert_eq!(
        decipher(&[
            2, 7, 4, 9, 1, 7, 3, 10, 5, 64, 6, 8, 10, 14, 8, 11, 12, 12, 14, 13, 16, 15, 18, 16, 20, 1, 20, 2, 22,
            0, 0, 1, 1, 5, 0, 0, 3, 6, 1, 2, 0, 7, 0,
        ]),
        runestone(Runestone {
            edicts: vec![
                Edict { id: id(1, 1), amount: 5, output: 0 },
                Edict { id: id(1, 4), amount: 6, output: 1 },
                Edict { id: id(3, 0), amount: 7, output: 0 },
            ],
            etching: Some(full_etching()),
            mint: Some(id(1, 2)),
            pointer: Some(0),
        }),
    );
}

#[test]
fn fields_may_come_in_any_order() {
    assert_eq!(
        decipher(&[22, 0, 20, 1, 6, 8, 4, 9, 20, 2, 2, 1]),
        runestone(Runestone {
            etching: Some(Etching { premine: Some(8), rune: Some(Rune(9)), ..Etching::default() }),
            mint: Some(id(1, 2)),
            pointer: Some(0),
            ..Runestone::default()
        }),
    );
}

#[test]
fn an_empty_runestone_is_two_opcodes() {
    assert_eq!(
        Runestone::default().encipher(),
        script(vec![Instruction::Op(0x6a), Instruction::Op(0x5d)]),
    );
}

#[test]
fn fields_are_written_in_a_fixed_order() {
    let runestone = Runestone {
        edicts: vec![
            Edict { id: id(3, 0), amount: 7, output: 0 },
            Edict { id: id(1, 4), amount: 6, output: 1 },
            Edict { id: id(1, 1), amount: 5, output: 0 },
        ],
        etching: Some(full_etching()),
        mint: Some(id(1, 2)),
        pointer: Some(0),
    };
    assert_eq!(
        runestone.encipher(),
        carrier(vec![
            2, 7, 4, 9, 1, 7, 3, 10, 5, 64, 6, 8, 10, 14, 8, 11, 12, 12, 14, 13, 16, 15, 18, 16, 20, 1, 20, 2, 22,
            0, 0, 1, 1, 5, 0, 0, 3, 6, 1, 2, 0, 7, 0,
        ]),
    );
}

#[test]
fn flags_of_an_etching() {
    let flags = |etching: Etching| {
        Runestone { etching: Some(etching), ..Runestone::default() }.encipher()
    };
    assert_eq!(flags(Etching::default()), carrier(vec![2, 1]));
    assert_eq!(flags(Etching { terms: Some(Terms::default()), ..Etching::default() }), carrier(vec![2, 3]));
    assert_eq!(flags(Etching { turbo: true, ..Etching::default() }), carrier(vec![2, 5]));
    assert_eq!(
        flags(Etching { terms: Some(Terms::default()), turbo: true, ..Etching::default() }),
        carrier(vec![2, 7]),
    );
}

#[test]
fn values_are_written_as_varints() {
    let runestone = Runestone {
        etching: Some(Etching { rune: Some(Rune(300)), symbol: Some('\u{e9}'), ..Etching::default() }),
        pointer: Some(128),
        ..Runestone::default()
    };
    assert_eq!(runestone.encipher(), carrier(vec![2, 1, 4, 0xac, 0x02, 5, 0xe9, 0x01, 22, 0x80, 0x01]));
}

#[test]
fn edicts_of_one_identifier_keep_their_order() {
    let runestone = Runestone {
        edicts: vec![
            Edict { id: id(2, 2), amount: 1, output: 1 },
            Edict { id: id(1, 1), amount: 2, output: 1 },
            Edict { id: id(2, 2), amount: 3, output: 0 },
            Edict { id: id(1, 1), amount: 4, output: 0 },
        ],
        ..Runestone::default()
    };
    assert_eq!(
        runestone.encipher(),
        carrier(vec![0, 1, 1, 2, 1, 0, 0, 4, 0, 1, 2, 1, 1, 0, 0, 3, 0]),
    );
    assert_eq!(
        round_trip(&runestone, 0),
        Some(Artifact::Runestone(Runestone {
            edicts: vec![
                Edict { id: id(1, 1), amount: 2, output: 1 },
                Edict { id: id(1, 1), amount: 4, output: 0 },
                Edict { id: id(2, 2), amount: 1, output: 1 },
                Edict { id: id(2, 2), amount: 3, output: 0 },
            ],
            ..Runestone::default()
        })),
    );
}

#[test]
fn a_long_payload_is_pushed_in_pieces() {
    let edicts: Vec<Edict> =
        (0..400).map(|i| Edict { id: id(1 + i, 0), amount: u128::from(i) + 1000, output: 0 }).collect();
    let runestone = Runestone { edicts, ..Runestone::default() };
    let script = runestone.encipher();
    // the body tag, and five bytes for each edict
    assert!(!script.malformed);
    assert_eq!(script.instructions.len(), 2 + 4);
    let mut lengths = Vec::new();
    let mut payload = Vec::new();
    for instruction in &script.instructions[2..] {
        match instruction {
            Instruction::PushBytes(bytes) => {
                lengths.push(bytes.len());
                payload.extend_from_slice(bytes);
            }
            Instruction::Op(_) => panic!("an opcode among the pushes"),
        }
    }
    assert_eq!(lengths, vec![520, 520, 520, 441]);
    assert_eq!(&payload[..6], &[0, 1, 0, 0xe8, 0x07, 0]);
    assert_eq!(round_trip(&runestone, 0), Some(Artifact::Runestone(runestone)));
}

#[test]
fn a_payload_of_the_greatest_size_is_one_push() {
    // four bytes for the mint, one for the body tag, five for each edict
    let edicts: Vec<Edict> = (0..103).map(|i| Edict { id: id(1 + i, 0), amount: 1000, output: 0 }).collect();
    let script = Runestone { edicts, mint: Some(id(1, 2)), ..Runestone::default() }.encipher();
    assert_eq!(script.instructions.len(), 3);
    match &script.instructions[2] {
        Instruction::PushBytes(bytes) => assert_eq!(bytes.len(), 520),
        Instruction::Op(_) => panic!("an opcode among the pushes"),
    }
}

#[test]
fn one_byte_more_is_a_second_push() {
    let edicts: Vec<Edict> = (0..104).map(|i| Edict { id: id(1 + i, 0), amount: 1000, output: 0 }).collect();
    let script = Runestone { edicts, ..Runestone::default() }.encipher();
    assert_eq!(script.instructions.len(), 4);
    match (&script.instructions[2], &script.instructions[3]) {
        (Instruction::PushBytes(first), Instruction::PushBytes(second)) => {
            assert_eq!(first.len(), 520);
            assert_eq!(second, &vec![0]);
        }
        _ => panic!("an opcode among the pushes"),
    }
}

#[test]
fn runestones_are_read_back() {
    let runestones = vec![
        Runestone::default(),
        Runestone { pointer: Some(2), ..Runestone::default() },
        Runestone { mint: Some(id(840000, 17)), ..Runestone::default() },
        Runestone { etching: Some(Etching::default()), ..Runestone::default() },
        Runestone { etching: Some(full_etching()), ..Runestone::default() },
        Runestone {
            etching: Some(Etching {
                divisibility: Some(38),
                premine: Some(u128::MAX),
                rune: Some(Rune(u128::MAX)),
                spacers: Some(0x07ff_ffff),
                symbol: Some('\u{10ffff}'),
                terms: Some(Terms {
                    amount: Some(u128::MAX),
                    cap: Some(0),
                    height: (Some(u64::MAX), Some(0)),
                    offset: (None, Some(u64::MAX)),
                }),
                turbo: false,
            }),
            ..Runestone::default()
        },
        Runestone {
            edicts: vec![
                Edict { id: id(0, 0), amount: 0, output: 3 },
                Edict { id: id(1, 2), amount: 3, output: 0 },
                Edict { id: id(1, 5), amount: u128::MAX, output: 1 },
                Edict { id: id(2, 0), amount: 5, output: 2 },
                Edict { id: id(u64::MAX, u32::MAX), amount: 5, output: 2 },
            ],
            etching: Some(full_etching()),
            mint: Some(id(1, 0)),
            pointer: Some(0),
        },
    ];
    for runestone in runestones {
        assert_eq!(round_trip(&runestone, 2), Some(Artifact::Runestone(runestone)));
    }
}

#[test]
fn the_mint_of_an_artifact() {
    assert_eq!(Artifact::Runestone(Runestone::default()).mint(), None);
    assert_eq!(
        Artifact::Runestone(Runestone { mint: Some(id(1, 2)), ..Runestone::default() }).mint(),
        Some(id(1, 2)),
    );
    assert_eq!(Artifact::Cenotaph(Cenotaph::default()).mint(), None);
    assert_eq!(
        Artifact::Cenotaph(Cenotaph { mint: Some(id(3, 4)), ..Cenotaph::default() }).mint(),
        Some(id(3, 4)),
    );
}

#[test]
fn what_was_read_is_read_again_from_what_it_is_written_to() {
    let payloads: Vec<Vec<u128>> = vec![
        vec![],
        vec![2, 7, 4, 9, 1, 39, 3, 1 << 40, 5, 0xd800, 6, 8, 12, 1 << 70, 22, 9, 20, 0, 20, 3, 101, 4],
        vec![22, 0, 20, 5, 20, 6, 0, 2, 3, 5, 0, 0, 0, 6, 1, 0, 4, 7, 9, 1, 0, 8, 0],
        vec![2, 3, 10, 4, 8, 5, 6, 1, 0, 0, 0, 1, 0],
    ];
    for integers in payloads {
        let read = decipher(&integers);
        match read {
            Some(Artifact::Runestone(runestone)) => {
                assert_eq!(round_trip(&runestone, 0), Some(Artifact::Runestone(runestone)));
            }
            _ => panic!("a runestone was expected"),
        }
    }
}
