use csharp_mem::{
    BindShape, Binding, ClassBinding, ClassDesc, FieldDesc, GenError, Pointer, SnapshotReader,
    TableReflection,
};

fn field(name: &str, is_static: bool, is_singleton: bool, width: usize) -> FieldDesc {
    FieldDesc { name: name.to_string(), is_static, is_singleton, width }
}

fn put_u32(b: &mut Vec<u8>, off: usize, v: u32) {
    b[off..off + 4].copy_from_slice(&v.to_le_bytes());
}

fn put_u64(b: &mut Vec<u8>, off: usize, v: u64) {
    b[off..off + 8].copy_from_slice(&v.to_le_bytes());
}

#[test]
fn mixing_static_and_plain_fields_is_rejected() {
    let desc = ClassDesc {
        name: "Timer".to_string(),
        fields: vec![field("frozen", true, false, 1), field("elapsed", false, false, 4)],
    };
    assert_eq!(ClassBinding::bind(desc).unwrap_err(), GenError::MixedFields);
}

#[test]
fn a_field_marked_both_static_and_singleton_is_rejected() {
    let desc = ClassDesc {
        name: "Timer".to_string(),
        fields: vec![field("shared", true, true, 8)],
    };
    assert_eq!(ClassBinding::bind(desc).unwrap_err(), GenError::StaticSingleton);
}

#[test]
fn two_singleton_fields_are_rejected() {
    let desc = ClassDesc {
        name: "Timer".to_string(),
        fields: vec![field("one", false, true, 8), field("two", false, true, 8)],
    };
    assert_eq!(ClassBinding::bind(desc).unwrap_err(), GenError::MultipleSingletons);
}

#[test]
fn binding_allocation_performs_no_lookup() {
    let desc = ClassDesc {
        name: "Player".to_string(),
        fields: vec![field("health", false, false, 4)],
    };
    let binding = ClassBinding::bind(desc).expect("a valid description");
    assert_eq!(binding.class, None);
    assert!(binding.slots.iter().all(|s| s.is_none()));
}

#[test]
fn an_all_static_class_reads_from_absolute_addresses() {
    let desc = ClassDesc {
        name: "Counter".to_string(),
        fields: vec![field("total", true, false, 4)],
    };
    let mut binding = ClassBinding::bind(desc).expect("a valid description");
    let mut refl = TableReflection::new_table(
        vec![("Counter".to_string(), 9)],
        vec![(9, "total".to_string(), 0x4000)],
        vec![],
    );
    let mut bytes = vec![0u8; 4];
    put_u32(&mut bytes, 0, 7);
    let reader = SnapshotReader { base: 0x4000, bytes };
    let values = binding.read(&mut refl, &reader).expect("a readable fixture");
    assert_eq!(values, vec![vec![7, 0, 0, 0]]);
}

#[test]
fn an_instance_class_reads_from_base_plus_offset() {
    let desc = ClassDesc {
        name: "Point".to_string(),
        fields: vec![field("x", false, false, 4), field("y", false, false, 4)],
    };
    let mut binding = ClassBinding::bind(desc).expect("a valid description");
    let mut refl = TableReflection::new_table(
        vec![("Point".to_string(), 3)],
        vec![],
        vec![(3, "x".to_string(), 0x8), (3, "y".to_string(), 0xC)],
    );
    let mut bytes = vec![0u8; 0x10];
    put_u32(&mut bytes, 0x8, 31);
    put_u32(&mut bytes, 0xC, 42);
    let reader = SnapshotReader { base: 0x5000, bytes };
    let values = binding.read_instance(&mut refl, &reader, 0x5000).expect("a readable fixture");
    assert_eq!(values, vec![vec![31, 0, 0, 0], vec![42, 0, 0, 0]]);
    let via_pointer = binding
        .read_pointer(&mut refl, &reader, Pointer::<u32>::new(0x5000))
        .expect("a readable fixture");
    assert_eq!(via_pointer, values);
}

#[test]
fn a_singleton_backed_class_caches_every_lookup() {
    // One singleton-implied instance holder and one plain field: the second
    // read must perform zero reflection lookups and return the same value.
    let desc = ClassDesc {
        name: "Player".to_string(),
        fields: vec![field("instance", false, true, 8), field("health", false, false, 4)],
    };
    let mut binding = ClassBinding::bind(desc).expect("a valid description");
    let mut refl = TableReflection::new_table(
        vec![("Player".to_string(), 77)],
        vec![(77, "instance".to_string(), 0x2000)],
        vec![(77, "health".to_string(), 0x10)],
    );
    // The singleton's static cell at 0x2000 holds the instance address
    // 0x3000; the instance's health field sits at 0x3010.
    let mut bytes = vec![0u8; 0x2000];
    put_u64(&mut bytes, 0x0, 0x3000);
    put_u32(&mut bytes, 0x1010, 99);
    let reader = SnapshotReader { base: 0x2000, bytes };

    let first = binding.read(&mut refl, &reader).expect("a readable fixture");
    assert_eq!(first, vec![0x3000u64.to_le_bytes().to_vec(), vec![99, 0, 0, 0]]);
    // One class lookup, one static-field lookup, one field-offset lookup.
    assert_eq!(refl.calls, 3);

    let second = binding.read(&mut refl, &reader).expect("a readable fixture");
    assert_eq!(second, first);
    // The caches were warm: no further lookup of any kind.
    assert_eq!(refl.calls, 3);
}

#[test]
fn a_failed_lookup_is_retried_on_the_next_call() {
    let desc = ClassDesc {
        name: "Late".to_string(),
        fields: vec![field("flag", true, false, 1)],
    };
    let mut binding = ClassBinding::bind(desc).expect("a valid description");
    // The class is not loaded yet: the first read fails after one lookup.
    let mut refl = TableReflection::new_table(vec![], vec![(5, "flag".to_string(), 0x900)], vec![]);
    let reader = SnapshotReader { base: 0x900, bytes: vec![1u8] };
    assert_eq!(binding.read(&mut refl, &reader), None);
    assert_eq!(refl.calls, 1);
    // The target finishes loading; the cache was left empty, so the next
    // call naturally retries and succeeds.
    refl.classes.push(("Late".to_string(), 5));
    let values = binding.read(&mut refl, &reader).expect("a readable fixture");
    assert_eq!(values, vec![vec![1]]);
    assert_eq!(refl.calls, 3);
}

#[test]
fn a_failed_data_read_returns_no_partial_aggregate() {
    let desc = ClassDesc {
        name: "Pair".to_string(),
        fields: vec![field("a", true, false, 4), field("b", true, false, 4)],
    };
    let mut binding = ClassBinding::bind(desc).expect("a valid description");
    let mut refl = TableReflection::new_table(
        vec![("Pair".to_string(), 2)],
        // The second field's address is unmapped.
        vec![(2, "a".to_string(), 0x100), (2, "b".to_string(), 0x9999)],
        vec![],
    );
    let reader = SnapshotReader { base: 0x100, bytes: vec![0u8; 4] };
    assert_eq!(binding.read(&mut refl, &reader), None);
}

#[test]
fn class_lookup_is_cached_independently() {
    let desc = ClassDesc {
        name: "Solo".to_string(),
        fields: vec![field("n", true, false, 4)],
    };
    let mut binding = ClassBinding::bind(desc).expect("a valid description");
    let mut refl =
        TableReflection::new_table(vec![("Solo".to_string(), 12)], vec![], vec![]);
    assert_eq!(binding.class(&mut refl), Some(12));
    assert_eq!(refl.calls, 1);
    assert_eq!(binding.class(&mut refl), Some(12));
    assert_eq!(refl.calls, 1);
}

#[test]
fn the_parameter_shape_follows_the_field_set() {
    let all_static = ClassDesc {
        name: "A".to_string(),
        fields: vec![field("x", true, false, 4)],
    };
    assert_eq!(ClassBinding::bind(all_static).unwrap().shape, BindShape::AllStatic);
    let empty = ClassDesc { name: "B".to_string(), fields: vec![] };
    assert_eq!(ClassBinding::bind(empty).unwrap().shape, BindShape::AllStatic);
    let singleton = ClassDesc {
        name: "C".to_string(),
        fields: vec![field("inst", false, true, 8), field("y", false, false, 4)],
    };
    assert_eq!(ClassBinding::bind(singleton).unwrap().shape, BindShape::SingletonBacked);
    let instance = ClassDesc {
        name: "D".to_string(),
        fields: vec![field("y", false, false, 4)],
    };
    assert_eq!(ClassBinding::bind(instance).unwrap().shape, BindShape::InstanceBacked);
}

/// A binding fixture for the alternate resolution path: it hands back the
/// instance address it was asked about.
struct EchoBinding;

impl Binding<u64> for EchoBinding {
    fn read_spec(self, _addr: u64) -> Option<u64> {
        unreachable!()
    }

    fn read(self, addr: u64) -> Option<u64> {
        Some(addr)
    }
}

#[test]
fn resolve_with_null_checks_before_consulting_the_binding() {
    let null: Pointer<u64> = Pointer::new(0);
    assert_eq!(null.resolve_with(EchoBinding), None);
    let p: Pointer<u64> = Pointer::new(0xABC);
    assert_eq!(p.resolve_with(EchoBinding), Some(0xABC));
    let q: Pointer<u32> = Pointer::new(0xDEF);
    assert_eq!(q.resolve_as_with::<u64, EchoBinding>(EchoBinding), Some(0xDEF));
}
