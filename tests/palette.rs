use rampeditor::{
    Address, Color, ColorElement, CopyColor, Data, Error, InsertColor, InsertRamp, InsertWatcher,
    Mixer, Operation, Palette, RemoveElement, RepeatOperation, SequenceOperation, Undo,
    OperationInfo,
};

fn a(page: u16, line: u8, column: u8) -> Address {
    Address::new(page, line, column)
}

fn two_sources() -> Palette {
    let mut pal = Palette::new();
    pal.apply(Operation::InsertColor(InsertColor::new(Color::new(0, 0, 0)))).unwrap();
    pal.apply(Operation::InsertColor(InsertColor::new(Color::new(150, 100, 50)))).unwrap();
    pal
}

#[test]
fn insert_ramp_example() {
    let mut pal = two_sources();
    pal.apply(Operation::InsertRamp(InsertRamp::new(a(0, 0, 0), a(0, 0, 1), 5))).unwrap();
    assert_eq!(pal.get_color(a(0, 0, 4)), Some(Color::new(75, 50, 25)));
    assert_eq!(pal.len(), 7);
}

#[test]
fn insert_ramp_amounts() {
    let mut pal = two_sources();
    pal.apply(Operation::InsertRamp(InsertRamp::new(a(0, 0, 0), a(0, 0, 1), 5))).unwrap();
    assert_eq!(pal.get_color(a(0, 0, 2)), Some(Color::new(25, 16, 8)));
    assert_eq!(pal.get_color(a(0, 0, 5)), Some(Color::new(100, 66, 33)));
    assert_eq!(pal.get_color(a(0, 0, 6)), Some(Color::new(125, 83, 41)));
}

#[test]
fn ramp_follows_its_sources() {
    let mut pal = two_sources();
    pal.apply(Operation::InsertRamp(InsertRamp::new(a(0, 0, 0), a(0, 0, 1), 1))).unwrap();
    assert_eq!(pal.get_color(a(0, 0, 2)), Some(Color::new(75, 50, 25)));
    pal.apply(Operation::InsertColor(
        InsertColor::new(Color::new(250, 200, 150)).located_at(a(0, 0, 0)).overwrite(true),
    ))
    .unwrap();
    assert_eq!(pal.get_color(a(0, 0, 2)), Some(Color::new(200, 150, 100)));
}

#[test]
fn insert_ramp_missing_source() {
    let mut pal = Palette::new();
    let r = pal.apply(Operation::InsertRamp(InsertRamp::new(a(0, 0, 0), a(0, 0, 1), 2)));
    assert_eq!(r, Err(Error::MissingSource(a(0, 0, 0))));
}

#[test]
fn insert_ramp_makes_sources_and_undo_removes_them() {
    let mut pal = Palette::new();
    let op = InsertRamp::new(a(0, 0, 0), a(0, 0, 1), 2).make_sources(true);
    pal.apply(Operation::InsertRamp(op)).unwrap();
    assert_eq!(pal.len(), 4);
    assert_eq!(pal.get_color(a(0, 0, 0)), Some(Color::new(0, 0, 0)));
    assert_eq!(pal.undo(), Ok(true));
    assert_eq!(pal.len(), 0);
    assert_eq!(pal.redo(), Ok(true));
    assert_eq!(pal.len(), 4);
}

#[test]
fn insert_ramp_located_and_overwriting() {
    let mut pal = two_sources();
    pal.apply(Operation::InsertColor(InsertColor::new(Color::new(9, 9, 9)).located_at(a(0, 1, 0))))
        .unwrap();
    let op = InsertRamp::new(a(0, 0, 0), a(0, 0, 1), 2).located_at(a(0, 1, 0)).overwrite(true);
    pal.apply(Operation::InsertRamp(op)).unwrap();
    assert_eq!(pal.len(), 4);
    assert_eq!(pal.get_color(a(0, 1, 0)), Some(Color::new(50, 33, 16)));
    assert_eq!(pal.get_color(a(0, 1, 1)), Some(Color::new(100, 66, 33)));
    assert_eq!(pal.undo(), Ok(true));
    assert_eq!(pal.get_color(a(0, 1, 0)), Some(Color::new(9, 9, 9)));
    assert_eq!(pal.get_color(a(0, 1, 1)), None);
}

#[test]
fn insert_ramp_builders() {
    let op = InsertRamp::new(a(0, 0, 0), a(0, 0, 1), 3);
    assert_eq!(op.location, None);
    assert!(!op.overwrite && !op.make_sources);
    let op = op.located_at(a(1, 0, 0)).overwrite(true).make_sources(true);
    assert_eq!(op.location, Some(a(1, 0, 0)));
    assert!(op.overwrite && op.make_sources);
    assert_eq!(op.count, 3);
}

#[test]
fn undo_and_redo_round_trip() {
    let mut pal = two_sources();
    pal.apply(Operation::InsertRamp(InsertRamp::new(a(0, 0, 0), a(0, 0, 1), 5))).unwrap();
    assert_eq!(pal.undo(), Ok(true));
    assert_eq!(pal.len(), 2);
    assert_eq!(pal.get_color(a(0, 0, 4)), None);
    assert_eq!(pal.get_color(a(0, 0, 1)), Some(Color::new(150, 100, 50)));
    assert_eq!(pal.redo(), Ok(true));
    assert_eq!(pal.len(), 7);
    assert_eq!(pal.get_color(a(0, 0, 4)), Some(Color::new(75, 50, 25)));
    assert_eq!(pal.redo(), Ok(false));
}

#[test]
fn undo_with_empty_history() {
    let mut pal = Palette::new();
    assert_eq!(pal.undo(), Ok(false));
    assert_eq!(pal.redo(), Ok(false));
}

#[test]
fn remove_element_and_undo() {
    let mut pal = two_sources();
    pal.apply(Operation::RemoveElement(RemoveElement::new(a(0, 0, 1)))).unwrap();
    assert_eq!(pal.len(), 1);
    assert_eq!(pal.get_color(a(0, 0, 1)), None);
    assert_eq!(pal.undo(), Ok(true));
    assert_eq!(pal.get_color(a(0, 0, 1)), Some(Color::new(150, 100, 50)));
}

#[test]
fn remove_element_slot_empty() {
    let mut pal = Palette::new();
    let r = pal.apply(Operation::RemoveElement(RemoveElement::new(a(0, 0, 3))));
    assert_eq!(r, Err(Error::SlotEmpty(a(0, 0, 3))));
}

#[test]
fn insert_color_slot_occupied() {
    let mut pal = two_sources();
    let r = pal.apply(Operation::InsertColor(InsertColor::new(Color::new(1, 2, 3)).located_at(a(0, 0, 0))));
    assert_eq!(r, Err(Error::SlotOccupied(a(0, 0, 0))));
    assert_eq!(pal.get_color(a(0, 0, 0)), Some(Color::new(0, 0, 0)));
}

#[test]
fn insert_color_first_free() {
    let mut pal = Palette::new();
    pal.apply(Operation::InsertColor(InsertColor::new(Color::new(1, 1, 1)).located_at(a(0, 0, 0))))
        .unwrap();
    pal.apply(Operation::InsertColor(InsertColor::new(Color::new(3, 3, 3)).located_at(a(0, 0, 2))))
        .unwrap();
    pal.apply(Operation::InsertColor(InsertColor::new(Color::new(2, 2, 2)))).unwrap();
    assert_eq!(pal.get_color(a(0, 0, 1)), Some(Color::new(2, 2, 2)));
}

#[test]
fn copy_color_copies_resolved_value() {
    let mut pal = two_sources();
    pal.apply(Operation::InsertRamp(InsertRamp::new(a(0, 0, 0), a(0, 0, 1), 1))).unwrap();
    pal.apply(Operation::CopyColor(CopyColor::new(a(0, 0, 2), a(1, 0, 0)))).unwrap();
    assert_eq!(pal.get_color(a(1, 0, 0)), Some(Color::new(75, 50, 25)));
    let r = pal.apply(Operation::CopyColor(CopyColor::new(a(0, 0, 2), a(0, 0, 0))));
    assert_eq!(r, Err(Error::SlotOccupied(a(0, 0, 0))));
    let r = pal.apply(Operation::CopyColor(CopyColor::new(a(5, 0, 0), a(6, 0, 0))));
    assert_eq!(r, Err(Error::SlotEmpty(a(5, 0, 0))));
}

#[test]
fn watcher_tracks_source() {
    let mut pal = two_sources();
    pal.apply(Operation::InsertWatcher(InsertWatcher::new(a(0, 0, 1)).located_at(a(2, 0, 0))))
        .unwrap();
    assert_eq!(pal.get_color(a(2, 0, 0)), Some(Color::new(150, 100, 50)));
    let r = pal.apply(Operation::InsertWatcher(InsertWatcher::new(a(9, 0, 0))));
    assert_eq!(r, Err(Error::MissingSource(a(9, 0, 0))));
}

#[test]
fn self_referential_cell_is_cyclic() {
    let mut pal = two_sources();
    let op = InsertWatcher::new(a(0, 0, 1)).located_at(a(0, 0, 1)).overwrite(true);
    pal.apply(Operation::InsertWatcher(op)).unwrap();
    assert_eq!(pal.resolve(a(0, 0, 1)), Err(Error::CyclicDependency(a(0, 0, 1))));
    assert_eq!(pal.get_color(a(0, 0, 1)), None);
}

#[test]
fn two_cell_cycle_is_cyclic() {
    let mut data = Data::new();
    let src = |x: Address| ColorElement::Mixed { mixer: Mixer::Watch, sources: vec![x] };
    data.create_cell(a(0, 0, 0), src(a(0, 0, 1))).unwrap();
    data.create_cell(a(0, 0, 1), src(a(0, 0, 0))).unwrap();
    assert_eq!(data.resolve(a(0, 0, 0)), Err(Error::CyclicDependency(a(0, 0, 0))));
}

#[test]
fn missing_and_malformed_sources() {
    let mut data = Data::new();
    data.create_cell(a(0, 0, 0), ColorElement::Mixed { mixer: Mixer::Watch, sources: vec![a(0, 0, 9)] })
        .unwrap();
    assert_eq!(data.resolve(a(0, 0, 0)), Err(Error::MissingSource(a(0, 0, 9))));
    data.create_cell(
        a(0, 0, 1),
        ColorElement::Mixed { mixer: Mixer::Ramp { num: 1, den: 2 }, sources: vec![a(0, 0, 0)] },
    )
    .unwrap();
    assert_eq!(data.resolve(a(0, 0, 1)), Err(Error::MalformedElement(a(0, 0, 1))));
    assert_eq!(data.resolve(a(0, 0, 5)), Err(Error::SlotEmpty(a(0, 0, 5))));
}

#[test]
fn sequence_insert_then_remove_undone() {
    let mut pal = two_sources();
    let seq = SequenceOperation::new(vec![
        Operation::InsertColor(InsertColor::new(Color::new(7, 7, 7)).located_at(a(0, 0, 5))),
        Operation::RemoveElement(RemoveElement::new(a(0, 0, 5))),
    ]);
    pal.apply_sequence(seq).unwrap();
    assert_eq!(pal.len(), 2);
    assert_eq!(pal.undo(), Ok(true));
    assert_eq!(pal.len(), 2);
    assert_eq!(pal.get_color(a(0, 0, 5)), None);
    assert_eq!(pal.get_color(a(0, 0, 0)), Some(Color::new(0, 0, 0)));
    assert_eq!(pal.redo(), Ok(true));
    assert_eq!(pal.len(), 2);
}

#[test]
fn sequence_undo_reverses_in_opposite_order() {
    let mut pal = two_sources();
    let seq = SequenceOperation::new(vec![
        Operation::InsertColor(InsertColor::new(Color::new(7, 7, 7)).located_at(a(0, 0, 5))),
        Operation::InsertColor(
            InsertColor::new(Color::new(8, 8, 8)).located_at(a(0, 0, 5)).overwrite(true),
        ),
    ]);
    pal.apply_sequence(seq).unwrap();
    assert_eq!(pal.get_color(a(0, 0, 5)), Some(Color::new(8, 8, 8)));
    assert_eq!(pal.undo(), Ok(true));
    assert_eq!(pal.get_color(a(0, 0, 5)), None);
    assert_eq!(pal.redo(), Ok(true));
    assert_eq!(pal.get_color(a(0, 0, 5)), Some(Color::new(8, 8, 8)));
}

#[test]
fn sequence_failure_keeps_applied_steps() {
    let mut pal = Palette::new();
    let seq = SequenceOperation::new(vec![
        Operation::InsertColor(InsertColor::new(Color::new(7, 7, 7)).located_at(a(0, 0, 5))),
        Operation::RemoveElement(RemoveElement::new(a(0, 0, 6))),
    ]);
    assert_eq!(pal.apply_sequence(seq), Err(Error::SlotEmpty(a(0, 0, 6))));
    assert_eq!(pal.len(), 1);
    assert_eq!(pal.undo(), Ok(false));
}

#[test]
fn repeat_inserts_and_undoes() {
    let mut pal = Palette::new();
    let rep = RepeatOperation::new(Operation::InsertColor(InsertColor::new(Color::new(4, 5, 6))), 3);
    pal.apply_repeat(rep).unwrap();
    assert_eq!(pal.len(), 3);
    assert_eq!(pal.get_color(a(0, 0, 2)), Some(Color::new(4, 5, 6)));
    assert_eq!(pal.undo(), Ok(true));
    assert_eq!(pal.len(), 0);
}

#[test]
fn find_targets_skips_excluded_and_occupied() {
    let mut data = Data::new();
    for c in [0u8, 1, 3] {
        data.create_cell(a(0, 0, c), ColorElement::Color(Color::new(c, c, c))).unwrap();
    }
    let exclude = vec![a(0, 0, 2), a(0, 0, 5)];
    let t = data.find_targets(3, a(0, 0, 0), false, &exclude).unwrap();
    assert_eq!(t, vec![a(0, 0, 4), a(0, 0, 6), a(0, 0, 7)]);
    let t = data.find_targets(3, a(0, 0, 0), true, &exclude).unwrap();
    assert_eq!(t, vec![a(0, 0, 0), a(0, 0, 1), a(0, 0, 3)]);
    assert_eq!(data.find_targets(0, a(0, 0, 0), false, &exclude), Ok(vec![]));
}

#[test]
fn find_targets_insufficient_space() {
    let data = Data::new();
    let exclude = vec![a(65535, 255, 254)];
    let r = data.find_targets(3, a(65535, 255, 253), false, &exclude);
    assert_eq!(r, Err(Error::InsufficientSpace));
    let t = data.find_targets(2, a(65535, 255, 253), false, &exclude).unwrap();
    assert_eq!(t, vec![a(65535, 255, 253), a(65535, 255, 255)]);
}

#[test]
fn first_free_address_wraps() {
    let mut data = Data::new();
    data.create_cell(a(65535, 255, 255), ColorElement::Color(Color::new(1, 1, 1))).unwrap();
    assert_eq!(data.first_free_address_after(a(65535, 255, 255)), Ok(a(0, 0, 0)));
    data.create_cell(a(0, 0, 0), ColorElement::Color(Color::new(1, 1, 1))).unwrap();
    assert_eq!(data.first_free_address_after(a(65535, 255, 255)), Ok(a(0, 0, 1)));
}

#[test]
fn data_create_and_remove() {
    let mut data = Data::new();
    assert_eq!(data.create_cell(a(1, 1, 1), ColorElement::Color(Color::new(1, 2, 3))), Ok(()));
    let again = data.create_cell(a(1, 1, 1), ColorElement::Color(Color::new(1, 2, 3)));
    assert_eq!(again, Err(Error::SlotOccupied(a(1, 1, 1))));
    assert!(data.cell(a(1, 1, 1)).is_some());
    assert!(data.remove_cell(a(1, 1, 1)).is_ok());
    assert!(matches!(data.remove_cell(a(1, 1, 1)), Err(Error::SlotEmpty(_))));
    assert_eq!(data.len(), 0);
}

#[test]
fn undo_record_first_empty_entry_wins() {
    let mut data = Data::new();
    let mut undo = Undo::new_for(&InsertColor::new(Color::new(1, 1, 1)));
    data.create_cell(a(0, 0, 0), ColorElement::Color(Color::new(1, 1, 1))).unwrap();
    undo.record(a(0, 0, 0), None);
    undo.record(a(0, 0, 0), Some(ColorElement::Color(Color::new(1, 1, 1))));
    assert_eq!(undo.len(), 1);
    let h = undo.apply(&mut data).unwrap();
    assert_eq!(data.len(), 0);
    assert_eq!(h.info, OperationInfo::Undo);
    h.apply(&mut data).unwrap();
    assert_eq!(data.resolve(a(0, 0, 0)), Ok(Color::new(1, 1, 1)));
}

#[test]
fn undo_invalid_state() {
    let mut data = Data::new();
    let mut undo = Undo::new_for(&InsertColor::new(Color::new(1, 1, 1)));
    undo.record(a(0, 0, 3), None);
    assert!(matches!(undo.apply(&mut data), Err(Error::InvalidState(_))));
}

#[test]
fn lerp_exact_values() {
    assert_eq!(Color::rgb_lerp(Color::new(0, 0, 0), Color::new(255, 255, 255), 1, 3), Color::new(85, 85, 85));
    assert_eq!(Color::rgb_lerp(Color::new(200, 10, 0), Color::new(0, 10, 200), 1, 4), Color::new(150, 10, 50));
    assert_eq!(Mixer::Ramp { num: 1, den: 2 }.mix(&vec![Color::new(0, 0, 0), Color::new(10, 20, 30)]), Color::new(5, 10, 15));
}

#[test]
fn undo_record_keeps_first_value() {
    let mut data = Data::new();
    data.create_cell(a(0, 0, 0), ColorElement::Color(Color::new(3, 3, 3))).unwrap();
    let mut undo = Undo::new_for(&RemoveElement::new(a(0, 0, 0)));
    assert_eq!(undo.info(), OperationInfo::RemoveElement);
    undo.record(a(0, 0, 0), Some(ColorElement::Color(Color::new(1, 1, 1))));
    undo.record(a(0, 0, 0), Some(ColorElement::Color(Color::new(2, 2, 2))));
    assert_eq!(undo.len(), 1);
    undo.apply(&mut data).unwrap();
    assert_eq!(data.resolve(a(0, 0, 0)), Ok(Color::new(1, 1, 1)));
}

#[test]
fn insert_ramp_keeps_existing_sources() {
    let mut pal = two_sources();
    pal.apply(Operation::InsertColor(InsertColor::new(Color::new(5, 5, 5)).located_at(a(0, 1, 0))))
        .unwrap();
    pal.apply(Operation::InsertRamp(InsertRamp::new(a(0, 0, 0), a(0, 0, 1), 2))).unwrap();
    assert_eq!(pal.get_color(a(0, 0, 0)), Some(Color::new(0, 0, 0)));
    assert_eq!(pal.get_color(a(0, 0, 1)), Some(Color::new(150, 100, 50)));
    assert_eq!(pal.get_color(a(0, 1, 0)), Some(Color::new(5, 5, 5)));
    assert_eq!(pal.len(), 5);
}
