use arrow2::array::Array;
use arrow2::datatypes::{DataType, Field, PrimitiveType};
use arrow2::error::ArrowError;
use arrow2::nested_utils::{
    close_offsets, create_list, extend_offsets, init_nested, DecodeState, Nested, NestedLevel,
    NestedOptional, NestedPrimitive, NestedValid,
};
use arrow2::read::{iter_to_array, DecodedPage};

fn optional_level(stack: &[NestedLevel], depth: usize) -> (Vec<i64>, Vec<bool>) {
    match &stack[depth] {
        NestedLevel::Optional(l) => (l.offsets.clone(), l.validity.clone()),
        other => panic!("not an optional level: {:?}", other),
    }
}

fn decode_one_page(
    reps: Vec<u32>,
    defs: Vec<u32>,
    is_nullable: bool,
    max_rep: u32,
    max_def: u32,
    stack: &mut Vec<NestedLevel>,
) {
    let mut state = DecodeState::new(stack.len());
    extend_offsets(&reps, &defs, is_nullable, max_rep, max_def, stack, &mut state);
    close_offsets(stack, &state);
}

fn int_field(name: &str, is_nullable: bool) -> Field {
    Field::new(name.to_string(), DataType::Int64, is_nullable)
}

fn list_of(name: &str, inner: Field, is_nullable: bool) -> Field {
    Field::new(name.to_string(), DataType::List(Box::new(inner)), is_nullable)
}

#[test]
fn optional_level_push_close_inner() {
    let mut level = NestedOptional::with_capacity(4);
    level.push(0, true);
    level.push(2, false);
    assert_eq!(level.last_offset(), 2);
    level.close(3);
    assert_eq!(level.offsets(), &[0, 2, 3]);
    assert!(level.is_nullable());
    let (offsets, validity) = level.inner();
    assert_eq!(offsets, vec![0, 2, 3]);
    assert_eq!(validity, Some(vec![true, false]));
    let (offsets, validity) = level.inner();
    assert!(offsets.is_empty());
    assert_eq!(validity, Some(vec![]));
}

#[test]
fn valid_and_primitive_levels() {
    let mut valid = NestedValid::with_capacity(2);
    valid.push(0, false);
    valid.close(5);
    assert!(!valid.is_nullable());
    assert_eq!(valid.inner(), (vec![0, 5], None));

    let mut leaf = NestedPrimitive::new(true);
    leaf.push(7, true);
    leaf.close(9);
    assert_eq!(leaf.last_offset(), 0);
    assert!(leaf.is_nullable());
    assert!(leaf.offsets().is_empty());
    assert_eq!(leaf.inner(), (vec![], None));
}

#[test]
fn init_nested_list_of_ints() {
    let field = list_of("l", int_field("item", false), true);
    let mut stack = vec![];
    init_nested(&field, 10, &mut stack).unwrap();
    assert_eq!(stack.len(), 2);
    assert!(matches!(stack[0], NestedLevel::Optional(_)));
    assert!(matches!(&stack[1], NestedLevel::Primitive(p) if !p.is_nullable));
}

#[test]
fn init_nested_struct_of_list() {
    let inner = list_of("l", int_field("item", true), false);
    let field = Field::new(
        "s".to_string(),
        DataType::Struct(vec![int_field("a", true), inner]),
        true,
    );
    let mut stack = vec![];
    init_nested(&field, 0, &mut stack).unwrap();
    let nullable: Vec<bool> = stack.iter().map(|l| l.is_nullable()).collect();
    assert_eq!(nullable, vec![true, true, false, true]);
    assert!(matches!(stack[2], NestedLevel::Valid(_)));
}

#[test]
fn init_nested_twice_same_shape() {
    let field = list_of("outer", list_of("inner", int_field("item", true), false), true);
    let mut first = vec![];
    let mut second = vec![];
    init_nested(&field, 3, &mut first).unwrap();
    init_nested(&field, 100, &mut second).unwrap();
    assert_eq!(first.len(), second.len());
    for (a, b) in first.iter().zip(second.iter()) {
        assert_eq!(a.is_nullable(), b.is_nullable());
    }
}

#[test]
fn init_nested_rejects_union() {
    let field = Field::new("u".to_string(), DataType::Union(vec![]), true);
    let mut stack = vec![];
    let r = init_nested(&field, 0, &mut stack);
    assert!(matches!(r, Err(ArrowError::NotYetImplemented(DataType::Union(_)))));
}

#[test]
fn scenario_single_page_two_levels() {
    // rep/def pairs (0,2), (1,2), (0,0) on a nullable list, max_rep 1, max_def 2
    let mut stack = vec![NestedLevel::Optional(NestedOptional::with_capacity(3))];
    decode_one_page(vec![0, 1, 0], vec![2, 2, 0], true, 1, 2, &mut stack);
    let (offsets, validity) = optional_level(&stack, 0);
    assert_eq!(offsets, vec![0, 2, 2]);
    assert_eq!(validity, vec![true, false]);
}

#[test]
fn round_trip_nullable_list_of_lists() {
    // [[1, 2], null, [3]]: nullable outer list of non-nullable ints
    let field = list_of("l", int_field("item", false), true);
    let mut stack = vec![];
    init_nested(&field, 3, &mut stack).unwrap();
    let page = DecodedPage {
        rep_levels: vec![0, 1, 0, 0],
        def_levels: vec![2, 2, 0, 2],
        values: vec![1, 2, 3],
        validity: vec![true, true, true],
    };
    let leaves = iter_to_array(&vec![page], DataType::Int64, &mut stack, 1, 2).unwrap();
    assert_eq!(leaves.values, vec![1, 2, 3]);
    assert!(leaves.validity.is_none());
    let list = create_list(
        DataType::List(Box::new(int_field("item", false))),
        &mut stack,
        Array::Primitive(leaves),
    )
    .unwrap();
    assert!(stack.is_empty());
    match list {
        Array::List(l) => {
            assert_eq!(l.offsets, vec![0, 2, 2, 3]);
            assert_eq!(l.validity, Some(vec![true, false, true]));
            assert!(matches!(*l.values, Array::Primitive(ref p) if p.values == vec![1, 2, 3]));
        }
        other => panic!("expected a list, got {:?}", other),
    }
}

#[test]
fn all_null_page() {
    let mut stack = vec![NestedLevel::Optional(NestedOptional::with_capacity(3))];
    decode_one_page(vec![0, 0, 0], vec![0, 0, 0], true, 1, 2, &mut stack);
    let (offsets, validity) = optional_level(&stack, 0);
    assert_eq!(validity, vec![false, false, false]);
    assert_eq!(offsets, vec![0, 0, 0, 0]);
}

#[test]
fn all_null_page_leaves_deeper_level_alone() {
    let mut stack = vec![
        NestedLevel::Optional(NestedOptional::with_capacity(2)),
        NestedLevel::Valid(NestedValid::with_capacity(2)),
    ];
    decode_one_page(vec![0, 0], vec![0, 0], false, 1, 2, &mut stack);
    let (_, validity) = optional_level(&stack, 0);
    assert_eq!(validity, vec![false, false]);
    match &stack[1] {
        NestedLevel::Valid(l) => assert_eq!(l.offsets.len(), 1),
        other => panic!("unexpected level {:?}", other),
    }
}

#[test]
fn first_pair_closes_every_level() {
    let mut stack = vec![
        NestedLevel::Optional(NestedOptional::with_capacity(1)),
        NestedLevel::Optional(NestedOptional::with_capacity(1)),
    ];
    decode_one_page(vec![0, 2, 1], vec![4, 4, 4], false, 2, 4, &mut stack);
    assert_eq!(optional_level(&stack, 0).0[0], 0);
    assert_eq!(optional_level(&stack, 1).0[0], 0);
}

#[test]
fn offsets_never_decrease() {
    let mut stack = vec![
        NestedLevel::Optional(NestedOptional::with_capacity(4)),
        NestedLevel::Valid(NestedValid::with_capacity(4)),
    ];
    let reps = vec![0, 1, 1, 0, 0, 1];
    let defs = vec![3, 3, 3, 0, 3, 3];
    decode_one_page(reps, defs, true, 1, 3, &mut stack);
    for level in stack.iter() {
        let offsets = level.offsets();
        assert!(offsets.windows(2).all(|w| w[0] <= w[1]), "{:?}", offsets);
    }
    let (offsets, validity) = optional_level(&stack, 0);
    assert_eq!(offsets.len(), validity.len() + 1);
    assert_eq!(offsets[0], 0);
}

#[test]
fn flat_column_counts() {
    let mut stack = vec![NestedLevel::Primitive(NestedPrimitive::new(true))];
    let pages = vec![
        DecodedPage {
            rep_levels: vec![],
            def_levels: vec![],
            values: vec![1, 0, 3],
            validity: vec![true, false, true],
        },
        DecodedPage {
            rep_levels: vec![],
            def_levels: vec![],
            values: vec![0, 5],
            validity: vec![false, true],
        },
    ];
    let array = iter_to_array(&pages, DataType::Int32, &mut stack, 0, 1).unwrap();
    assert_eq!(array.len(), 5);
    assert_eq!(array.data_type, PrimitiveType::Int32);
    let validity = array.validity.unwrap();
    assert_eq!(validity.iter().filter(|v| !**v).count(), 2);
    assert_eq!(array.values, vec![1, 0, 3, 0, 5]);
    assert!(stack.is_empty());
}

#[test]
fn dictionary_leaves_take_the_values_type() {
    let mut stack = vec![NestedLevel::Primitive(NestedPrimitive::new(false))];
    let pages = vec![DecodedPage {
        rep_levels: vec![],
        def_levels: vec![],
        values: vec![4],
        validity: vec![true],
    }];
    let array = iter_to_array(
        &pages,
        DataType::Dictionary(Box::new(DataType::UInt8)),
        &mut stack,
        0,
        0,
    )
    .unwrap();
    assert_eq!(array.data_type, PrimitiveType::UInt8);
}

#[test]
fn non_primitive_leaves_are_refused() {
    let mut stack = vec![NestedLevel::Primitive(NestedPrimitive::new(false))];
    let r = iter_to_array(&vec![], DataType::Utf8, &mut stack, 0, 0);
    assert!(matches!(r, Err(ArrowError::NotYetImplemented(DataType::Utf8))));
    assert_eq!(stack.len(), 1);
}

#[test]
fn create_large_list_keeps_offsets() {
    let mut stack = vec![NestedLevel::Valid(NestedValid { offsets: vec![0, 1, 4] })];
    let values = Array::Primitive(arrow2::array::PrimitiveArray::from_data(
        PrimitiveType::Int64,
        vec![1, 2, 3, 4],
        None,
    ));
    let list = create_list(
        DataType::LargeList(Box::new(int_field("item", false))),
        &mut stack,
        values,
    )
    .unwrap();
    match list {
        Array::LargeList(l) => {
            assert_eq!(l.offsets, vec![0, 1, 4]);
            assert!(l.validity.is_none());
        }
        other => panic!("expected a large list, got {:?}", other),
    }
}

#[test]
fn create_list_truncates_offsets() {
    let big = (1i64 << 32) + 5;
    let mut stack = vec![NestedLevel::Valid(NestedValid { offsets: vec![0, big] })];
    let values = Array::Primitive(arrow2::array::PrimitiveArray::from_data(
        PrimitiveType::Int64,
        vec![],
        None,
    ));
    let list = create_list(
        DataType::List(Box::new(int_field("item", false))),
        &mut stack,
        values,
    )
    .unwrap();
    match list {
        Array::List(l) => assert_eq!(l.offsets, vec![0, 5]),
        other => panic!("expected a list, got {:?}", other),
    }
}

#[test]
fn create_list_rejects_other_types() {
    let mut stack = vec![NestedLevel::Valid(NestedValid { offsets: vec![0] })];
    let values = Array::Primitive(arrow2::array::PrimitiveArray::from_data(
        PrimitiveType::Int64,
        vec![],
        None,
    ));
    let r = create_list(DataType::Int32, &mut stack, values);
    assert!(matches!(r, Err(ArrowError::NotYetImplemented(DataType::Int32))));
    assert_eq!(stack.len(), 1);
}

#[test]
fn state_carries_across_pages() {
    let mut stack = vec![NestedLevel::Optional(NestedOptional::with_capacity(2))];
    let mut state = DecodeState::new(1);
    extend_offsets(&vec![0], &vec![2], false, 1, 2, &mut stack, &mut state);
    extend_offsets(&vec![0], &vec![2], false, 1, 2, &mut stack, &mut state);
    close_offsets(&mut stack, &state);
    let (offsets, validity) = optional_level(&stack, 0);
    assert_eq!(offsets, vec![0, 1, 2]);
    assert_eq!(validity, vec![true, true]);
}

#[test]
fn nested_column_over_two_pages() {
    // [[1, 2], null] on the first page, [[3]] on the second
    let field = list_of("l", int_field("item", false), true);
    let mut stack = vec![];
    init_nested(&field, 3, &mut stack).unwrap();
    let pages = vec![
        DecodedPage {
            rep_levels: vec![0, 1, 0],
            def_levels: vec![2, 2, 0],
            values: vec![1, 2],
            validity: vec![true, true],
        },
        DecodedPage {
            rep_levels: vec![0],
            def_levels: vec![2],
            values: vec![3],
            validity: vec![true],
        },
    ];
    let leaves = iter_to_array(&pages, DataType::Int64, &mut stack, 1, 2).unwrap();
    assert_eq!(leaves.values, vec![1, 2, 3]);
    let (offsets, validity) = optional_level(&stack, 0);
    assert_eq!(offsets, vec![0, 2, 2, 3]);
    assert_eq!(validity, vec![true, false, true]);
}
