use runes::etching::Etching;
use runes::flag::Flag;
use runes::flaw::Flaw;
use runes::message::Message;
use runes::rune::Rune;
use runes::rune_id::RuneId;
use runes::edict::Edict;
use runes::tag::{Fields, Tag};
use runes::terms::Terms;
use std::collections::VecDeque;

fn fields(pairs: &[(u128, &[u128])]) -> Fields {
    let mut fields = Fields::new();
    for (key, values) in pairs {
        fields.insert(*key, values.iter().copied().collect::<VecDeque<u128>>());
    }
    fields
}

#[test]
fn flag_masks() {
    assert_eq!(Flag::Etching.mask(), 0b1);
    assert_eq!(Flag::Terms.mask(), 0b10);
    assert_eq!(Flag::Turbo.mask(), 0b100);
    assert_eq!(Flag::Cenotaph.mask(), 1 << 127);
}

#[test]
fn flags_are_set_and_taken() {
    let mut flags = 0;
    Flag::Etching.set(&mut flags);
    assert_eq!(flags, 1);
    Flag::Turbo.set(&mut flags);
    assert_eq!(flags, 5);
    assert!(!Flag::Terms.take(&mut flags));
    assert_eq!(flags, 5);
    assert!(Flag::Etching.take(&mut flags));
    assert_eq!(flags, 4);
    assert!(!Flag::Etching.take(&mut flags));
    assert!(Flag::Turbo.take(&mut flags));
    assert_eq!(flags, 0);
}

#[test]
fn taking_a_flag_leaves_the_others() {
    let mut flags = u128::MAX;
    assert!(Flag::Cenotaph.take(&mut flags));
    assert_eq!(flags, u128::MAX >> 1);
}

#[test]
fn tag_keys() {
    assert_eq!(Tag::Body.key(), 0);
    assert_eq!(Tag::Flags.key(), 2);
    assert_eq!(Tag::Rune.key(), 4);
    assert_eq!(Tag::Premine.key(), 6);
    assert_eq!(Tag::Cap.key(), 8);
    assert_eq!(Tag::Amount.key(), 10);
    assert_eq!(Tag::HeightStart.key(), 12);
    assert_eq!(Tag::HeightEnd.key(), 14);
    assert_eq!(Tag::OffsetStart.key(), 16);
    assert_eq!(Tag::OffsetEnd.key(), 18);
    assert_eq!(Tag::Mint.key(), 20);
    assert_eq!(Tag::Pointer.key(), 22);
    assert_eq!(Tag::Cenotaph.key(), 126);
    assert_eq!(Tag::Divisibility.key(), 1);
    assert_eq!(Tag::Spacers.key(), 3);
    assert_eq!(Tag::Symbol.key(), 5);
    assert_eq!(Tag::Nop.key(), 127);
}

#[test]
fn take_removes_the_key_with_the_last_value() {
    let mut f = fields(&[(2, &[3])]);
    assert_eq!(Tag::Flags.take(1, &mut f, |values| Some(values[0])), Some(3));
    assert!(f.is_empty());
}

#[test]
fn take_leaves_the_later_values() {
    let mut f = fields(&[(2, &[1, 2, 3])]);
    assert_eq!(Tag::Flags.take(1, &mut f, |values| Some(values[0])), Some(1));
    assert_eq!(f, fields(&[(2, &[2, 3])]));
    assert_eq!(Tag::Flags.take(2, &mut f, |values| Some(values[0] + values[1])), Some(5));
    assert!(f.is_empty());
}

#[test]
fn take_of_an_absent_key() {
    let mut f = fields(&[(4, &[1])]);
    assert_eq!(Tag::Flags.take(1, &mut f, |values| Some(values[0])), None);
    assert_eq!(f, fields(&[(4, &[1])]));
}

#[test]
fn take_of_too_few_values_empties_the_field() {
    let mut f = fields(&[(20, &[1]), (22, &[0])]);
    assert_eq!(Tag::Mint.take(2, &mut f, |values| Some(values[0])), None);
    assert_eq!(f, fields(&[(22, &[0])]));
}

#[test]
fn values_that_are_refused_are_gone() {
    let mut f = fields(&[(1, &[39, 4])]);
    assert_eq!(Tag::Divisibility.take(1, &mut f, |_| None::<u8>), None);
    assert_eq!(f, fields(&[(1, &[4])]));
    assert_eq!(Tag::Divisibility.take(1, &mut f, |_| None::<u8>), None);
    assert!(f.is_empty());
}

#[test]
fn tags_encode_key_and_value() {
    let mut payload = Vec::new();
    Tag::Flags.encode(&vec![3], &mut payload);
    assert_eq!(payload, vec![2, 3]);
    Tag::Rune.encode(&vec![5], &mut payload);
    assert_eq!(payload, vec![2, 3, 4, 5]);
    Tag::Mint.encode(&vec![1, 300], &mut payload);
    assert_eq!(payload, vec![2, 3, 4, 5, 20, 1, 20, 0xac, 0x02]);
    Tag::Nop.encode(&Vec::new(), &mut payload);
    assert_eq!(payload.len(), 9);
}

#[test]
fn tags_encode_options() {
    let mut payload = Vec::new();
    Tag::Pointer.encode_option(None, &mut payload);
    assert!(payload.is_empty());
    Tag::Pointer.encode_option(Some(128), &mut payload);
    assert_eq!(payload, vec![22, 0x80, 0x01]);
}

#[test]
fn messages_collect_values_under_their_keys() {
    let message = Message::from_integers(&[2, 1, 4, 7, 2, 9, 101, 0]);
    assert_eq!(message.flaw, None);
    assert_eq!(message.edicts, Vec::new());
    assert_eq!(message.fields, fields(&[(2, &[1, 9]), (4, &[7]), (101, &[0])]));
}

#[test]
fn messages_without_integers() {
    let message = Message::from_integers(&[]);
    assert_eq!(message.flaw, None);
    assert!(message.edicts.is_empty());
    assert!(message.fields.is_empty());
}

#[test]
fn messages_read_edicts_after_the_body() {
    let message = Message::from_integers(&[2, 1, 0, 1, 2, 3, 0, 0, 3, 4, 1, 1, 0, 5, 3]);
    assert_eq!(message.flaw, None);
    assert_eq!(
        message.edicts,
        vec![
            Edict { id: RuneId { block: 1, tx: 2 }, amount: 3, output: 0 },
            Edict { id: RuneId { block: 1, tx: 5 }, amount: 4, output: 1 },
            Edict { id: RuneId { block: 2, tx: 0 }, amount: 5, output: 3 },
        ],
    );
    assert_eq!(message.fields, fields(&[(2, &[1])]));
}

#[test]
fn a_body_tag_among_the_values_is_a_value() {
    let message = Message::from_integers(&[2, 0, 4, 0]);
    assert_eq!(message.flaw, None);
    assert!(message.edicts.is_empty());
    assert_eq!(message.fields, fields(&[(2, &[0]), (4, &[0])]));
}

#[test]
fn a_key_without_a_value_is_a_flaw() {
    let message = Message::from_integers(&[2, 1, 4]);
    assert_eq!(message.flaw, Some(Flaw::TruncatedField));
    assert_eq!(message.fields, fields(&[(2, &[1])]));
}

#[test]
fn integers_left_over_after_the_edicts_are_a_flaw() {
    let message = Message::from_integers(&[0, 1, 2, 3, 0, 1]);
    assert_eq!(message.flaw, Some(Flaw::TrailingIntegers));
    assert_eq!(
        message.edicts,
        vec![Edict { id: RuneId { block: 1, tx: 2 }, amount: 3, output: 0 }],
    );
}

#[test]
fn an_edict_that_leaves_the_range_is_a_flaw() {
    let message = Message::from_integers(&[0, 1, 2, 3, 0, u128::from(u64::MAX), 0, 1, 0]);
    assert_eq!(message.flaw, Some(Flaw::EdictRuneId));
    assert_eq!(message.edicts.len(), 1);
    let message = Message::from_integers(&[0, 0, 1, 3, 0]);
    assert_eq!(message.flaw, Some(Flaw::EdictRuneId));
    assert!(message.edicts.is_empty());
}

#[test]
fn an_edict_with_an_output_beyond_32_bits_is_a_flaw() {
    let message = Message::from_integers(&[0, 1, 2, 3, u128::from(u32::MAX) + 1]);
    assert_eq!(message.flaw, Some(Flaw::EdictOutput));
    assert!(message.edicts.is_empty());
    let message = Message::from_integers(&[0, 1, 2, 3, u128::from(u32::MAX)]);
    assert_eq!(message.flaw, None);
    assert_eq!(
        message.edicts,
        vec![Edict { id: RuneId { block: 1, tx: 2 }, amount: 3, output: u32::MAX }],
    );
}

#[test]
fn only_the_first_flaw_is_kept() {
    let message = Message::from_integers(&[0, 0, 1, 3, 0, 7]);
    assert_eq!(message.flaw, Some(Flaw::EdictRuneId));
}

#[test]
fn supply_of_an_etching() {
    let etching = Etching {
        premine: Some(10),
        terms: Some(Terms { amount: Some(3), cap: Some(4), height: (None, None), offset: (None, None) }),
        ..Etching::default()
    };
    assert_eq!(etching.supply(), Some(22));
    assert_eq!(Etching::default().supply(), Some(0));
    assert_eq!(Etching { premine: Some(u128::MAX), ..Etching::default() }.supply(), Some(u128::MAX));
    assert_eq!(
        Etching { rune: Some(Rune(1)), premine: Some(7), terms: Some(Terms::default()), ..Etching::default() }
            .supply(),
        Some(7),
    );
}

#[test]
fn supply_beyond_128_bits() {
    let terms = |amount, cap| Some(Terms { amount: Some(amount), cap: Some(cap), height: (None, None), offset: (None, None) });
    assert_eq!(Etching { premine: Some(u128::MAX), terms: terms(1, 1), ..Etching::default() }.supply(), None);
    assert_eq!(Etching { premine: None, terms: terms(u128::MAX, 2), ..Etching::default() }.supply(), None);
    assert_eq!(Etching { premine: Some(1), terms: terms(u128::MAX, 1), ..Etching::default() }.supply(), None);
    assert_eq!(Etching { premine: Some(0), terms: terms(u128::MAX, 1), ..Etching::default() }.supply(), Some(u128::MAX));
}

#[test]
fn bounds_of_an_etching() {
    assert_eq!(Etching::MAX_DIVISIBILITY, 38);
    assert_eq!(Etching::MAX_SPACERS, 0x07ff_ffff);
}
