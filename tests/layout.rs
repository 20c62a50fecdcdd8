use offsetable_struct::layout::{compute_offsets, FieldDescriptor, LayoutError};
use offsetable_struct::util::{align_up, is_power_of_two};

fn field(size: usize, alignment: usize) -> FieldDescriptor {
    FieldDescriptor { size, alignment }
}

fn field_of<T>() -> FieldDescriptor {
    field(std::mem::size_of::<T>(), std::mem::align_of::<T>())
}

#[test]
fn it_works() {
    // struct Foo { a: f32, b: [f32; 4], c: u8 }
    let offsets = compute_offsets(&[field_of::<f32>(), field_of::<[f32; 4]>(), field_of::<u8>()])
        .unwrap();
    assert_eq!(offsets[0], 0);
    assert_eq!(offsets[1], 4);
    assert_eq!(offsets[2], 5 * 4);
}

#[test]
fn reference_scenario() {
    let r = compute_offsets(&[field(4, 4), field(16, 4), field(1, 1)]);
    assert_eq!(r, Ok(vec![0, 4, 20]));
}

#[test]
fn leading_byte_forces_padding() {
    let r = compute_offsets(&[field(1, 1), field(4, 4)]);
    assert_eq!(r, Ok(vec![0, 4]));
}

#[test]
fn over_aligned_trailing_field() {
    let r = compute_offsets(&[field(1, 1), field(8, 8)]);
    assert_eq!(r, Ok(vec![0, 8]));
}

#[test]
fn uniform_alignment_no_padding() {
    let r = compute_offsets(&[field(4, 4), field(4, 4)]);
    assert_eq!(r, Ok(vec![0, 4]));
}

#[test]
fn empty_input() {
    assert_eq!(compute_offsets(&[]), Ok(vec![]));
}

#[test]
fn first_offset_is_zero() {
    for a in [1usize, 2, 8, 64, 4096] {
        let r = compute_offsets(&[field(3, a), field(1, 1)]).unwrap();
        assert_eq!(r[0], 0);
    }
}

fn mixed_fields() -> Vec<FieldDescriptor> {
    vec![
        field(1, 1),
        field(2, 2),
        field(1, 1),
        field(8, 8),
        field(0, 16),
        field(3, 1),
        field(4, 4),
        field(0, 1),
        field(2, 2),
    ]
}

#[test]
fn fields_do_not_overlap() {
    let fields = mixed_fields();
    let r = compute_offsets(&fields).unwrap();
    for i in 1..fields.len() {
        assert!(r[i] >= r[i - 1] + fields[i - 1].size);
    }
}

#[test]
fn offsets_are_aligned() {
    let fields = mixed_fields();
    let r = compute_offsets(&fields).unwrap();
    for i in 0..fields.len() {
        assert_eq!(r[i] % fields[i].alignment, 0);
    }
}

#[test]
fn offsets_are_tight() {
    let fields = mixed_fields();
    let r = compute_offsets(&fields).unwrap();
    assert_eq!(r, vec![0, 2, 4, 8, 16, 16, 20, 24, 24]);
    for i in 0..fields.len() {
        let prior = if i == 0 { 0 } else { r[i - 1] + fields[i - 1].size };
        for v in prior..r[i] {
            assert_ne!(v % fields[i].alignment, 0);
        }
    }
}

#[test]
fn same_input_same_output() {
    let fields = mixed_fields();
    assert_eq!(compute_offsets(&fields), compute_offsets(&fields.clone()));
    let bad = [field(1, 1), field(1, 3)];
    assert_eq!(compute_offsets(&bad), compute_offsets(&bad));
}

#[test]
fn zero_size_fields_take_no_room() {
    let r = compute_offsets(&[field(0, 4), field(0, 1), field(2, 2), field(0, 8), field(1, 1)]);
    assert_eq!(r, Ok(vec![0, 0, 0, 8, 8]));
}

#[test]
fn zero_alignment_is_rejected() {
    let r = compute_offsets(&[field(4, 4), field(4, 0)]);
    assert_eq!(r, Err(LayoutError::InvalidAlignment { index: 1 }));
}

#[test]
fn non_power_of_two_alignment_is_rejected() {
    let r = compute_offsets(&[field(1, 1), field(4, 4), field(6, 6), field(3, 3)]);
    assert_eq!(r, Err(LayoutError::InvalidAlignment { index: 2 }));
}

#[test]
fn alignment_checked_before_overflow() {
    let r = compute_offsets(&[field(usize::MAX, 1), field(1, 1), field(1, 12)]);
    assert_eq!(r, Err(LayoutError::InvalidAlignment { index: 2 }));
}

#[test]
fn largest_size_fits() {
    assert_eq!(compute_offsets(&[field(usize::MAX, 1)]), Ok(vec![0]));
    assert_eq!(
        compute_offsets(&[field(usize::MAX - 1, 1), field(1, 1), field(0, 1)]),
        Ok(vec![0, usize::MAX - 1, usize::MAX])
    );
}

#[test]
fn end_past_max_overflows() {
    let r = compute_offsets(&[field(usize::MAX, 1), field(1, 1)]);
    assert_eq!(r, Err(LayoutError::Overflow));
}

#[test]
fn rounding_past_max_overflows() {
    // The second field would start at usize::MAX + 1.
    let r = compute_offsets(&[field(usize::MAX - 2, 1), field(0, 4)]);
    assert_eq!(r, Err(LayoutError::Overflow));
}

#[test]
fn rounding_to_last_multiple_fits() {
    let top = usize::MAX - 3;
    let r = compute_offsets(&[field(top - 3, 1), field(0, 4), field(3, 1)]);
    assert_eq!(r, Ok(vec![0, top, top]));
}

#[test]
fn align_up_rounds_to_multiple() {
    assert_eq!(align_up(5, 4), 8);
    assert_eq!(align_up(8, 8), 8);
    assert_eq!(align_up(9, 8), 16);
    assert_eq!(align_up(0, 16), 0);
    assert_eq!(align_up(17, 1), 17);
    assert_eq!(align_up(usize::MAX - 7, 8), usize::MAX - 7);
}

#[test]
fn powers_of_two() {
    assert!(!is_power_of_two(0));
    assert!(is_power_of_two(1));
    assert!(is_power_of_two(2));
    assert!(!is_power_of_two(3));
    assert!(is_power_of_two(4096));
    assert!(!is_power_of_two(6));
    assert!(!is_power_of_two(12));
    assert!(is_power_of_two(1usize << (usize::BITS - 1)));
    assert!(!is_power_of_two(usize::MAX));
}
