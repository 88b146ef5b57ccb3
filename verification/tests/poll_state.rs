use zi::{PollState, Size};

fn merged(mut first: PollState, second: PollState) -> PollState {
    first.merge(second);
    first
}

fn states() -> Vec<PollState> {
    vec![
        PollState::Clean,
        PollState::Dirty(None),
        PollState::Dirty(Some(Size::new(1, 2))),
        PollState::Dirty(Some(Size::new(3, 4))),
        PollState::Exit,
    ]
}

#[test]
fn merging_is_associative() {
    for a in states() {
        for b in states() {
            for c in states() {
                assert_eq!(merged(merged(a, b), c), merged(a, merged(b, c)));
            }
        }
    }
}

#[test]
fn merging_is_commutative() {
    for a in states() {
        for b in states() {
            assert_eq!(merged(a, b), merged(b, a));
        }
    }
}

#[test]
fn of_two_resizes_the_larger_size_is_kept() {
    let resize = |width, height| PollState::Dirty(Some(Size::new(width, height)));
    assert_eq!(merged(resize(1, 1), resize(2, 2)), resize(2, 2));
    assert_eq!(merged(resize(2, 2), resize(1, 1)), resize(2, 2));
    assert_eq!(merged(resize(3, 1), resize(2, 9)), resize(3, 1));
    assert_eq!(merged(resize(2, 9), resize(3, 1)), resize(3, 1));
    assert_eq!(merged(resize(2, 4), resize(2, 5)), resize(2, 5));
    assert_eq!(merged(resize(2, 5), resize(2, 4)), resize(2, 5));
    assert_eq!(merged(resize(2, 5), resize(2, 5)), resize(2, 5));
}

#[test]
fn exit_absorbs_and_clean_yields() {
    for a in states() {
        assert_eq!(merged(a, PollState::Exit), PollState::Exit);
        assert_eq!(merged(PollState::Exit, a), PollState::Exit);
        assert_eq!(merged(a, PollState::Clean), a);
        assert_eq!(merged(PollState::Clean, a), a);
    }
}

#[test]
fn a_resize_absorbs_a_plain_dirty_state() {
    let resized = PollState::Dirty(Some(Size::new(5, 6)));
    assert_eq!(merged(resized, PollState::Dirty(None)), resized);
    assert_eq!(merged(PollState::Dirty(None), resized), resized);
    assert!(resized.dirty());
    assert!(resized.resized());
    assert!(!resized.exit());
    assert!(PollState::Dirty(None).dirty());
    assert!(!PollState::Dirty(None).resized());
    assert!(!PollState::Clean.dirty());
}
