use rampeditor::{Address, Group};

#[test]
fn wrapped_next_wraps_column_and_line_into_page() {
    let a = Address::new(0, 9, 9);
    assert_eq!(a.wrapped_next(10, 10, 10), Address::new(1, 0, 0));
}

#[test]
fn wrapped_next_advances_column() {
    assert_eq!(Address::new(2, 3, 4).wrapped_next(10, 10, 10), Address::new(2, 3, 5));
}

#[test]
fn wrapped_next_wraps_last_page_to_zero() {
    assert_eq!(Address::new(9, 9, 9).wrapped_next(10, 10, 10), Address::new(0, 0, 0));
}

#[test]
fn wrapped_next_at_type_limits() {
    assert_eq!(Address::new(0, 0, 255).wrapped_next(1, 255, 255), Address::new(0, 1, 0));
    assert_eq!(
        Address::new(65535, 255, 255).wrapped_next(65535, 255, 255),
        Address::new(0, 0, 0)
    );
}

#[test]
fn wrapped_next_full_cycle_returns_to_origin() {
    let (pages, lines, columns) = (3u16, 4u8, 5u8);
    let origin = Address::new(0, 0, 0);
    let mut a = origin;
    let n = pages as usize * lines as usize * columns as usize;
    for i in 0..n {
        if i > 0 {
            assert_ne!(a, origin);
        }
        a = a.wrapped_next(pages, lines, columns);
    }
    assert_eq!(a, origin);
}

#[test]
fn page_and_line_groups() {
    assert_eq!(Address::new(1, 2, 3).page_group(), Group::Page { page: 1 });
    assert_eq!(Address::new(1, 2, 3).line_group(), Group::Line { page: 1, line: 2 });
}

#[test]
fn group_contains() {
    let line = Group::Line { page: 1, line: 2 };
    assert!(line.contains(Address::new(1, 2, 200)));
    assert!(!line.contains(Address::new(1, 3, 0)));
    assert!(!line.contains(Address::new(0, 2, 0)));
    let page = Group::Page { page: 4 };
    assert!(page.contains(Address::new(4, 255, 7)));
    assert!(!page.contains(Address::new(5, 0, 0)));
    assert!(Group::All.contains(Address::new(65535, 255, 255)));
}

#[test]
fn group_base_address() {
    assert_eq!(Group::Line { page: 1, line: 2 }.base_address(), Address::new(1, 2, 0));
    assert_eq!(Group::Page { page: 7 }.base_address(), Address::new(7, 0, 0));
    assert_eq!(Group::All.base_address(), Address::new(0, 0, 0));
}

#[test]
fn group_selection_covers_group() {
    let sel = Group::Line { page: 1, line: 2 }.to_selection();
    assert_eq!(sel.len(), 1);
    assert!(sel[0].right_open);
    assert_eq!(sel[0].lower, Address::new(1, 2, 0));
    assert_eq!(sel[0].upper, Address::new(1, 3, 0));
    assert!(sel[0].contains(Address::new(1, 2, 255)));
    assert!(!sel[0].contains(Address::new(1, 3, 0)));
    let last = Group::Page { page: 65535 }.to_selection();
    assert!(!last[0].right_open);
    assert!(last[0].contains(Address::new(65535, 255, 255)));
    let all = Group::All.to_selection();
    assert!(all[0].contains(Address::new(0, 0, 0)));
    assert!(all[0].contains(Address::new(65535, 255, 255)));
    let point = Address::new(3, 4, 5).to_selection();
    assert!(point[0].contains(Address::new(3, 4, 5)));
    assert!(!point[0].contains(Address::new(3, 4, 6)));
}

#[test]
fn wrapped_next_with_zero_bounds() {
    assert_eq!(Address::new(0, 0, 5).wrapped_next(1, 0, 0), Address::new(0, 0, 6));
    assert_eq!(Address::new(0, 0, 255).wrapped_next(3, 0, 0), Address::new(0, 1, 0));
    assert_eq!(Address::new(0, 255, 255).wrapped_next(3, 0, 0), Address::new(1, 0, 0));
    assert_eq!(Address::new(2, 255, 255).wrapped_next(0, 0, 0), Address::new(0, 0, 0));
}
