use lfll::seedable::mix_int;
use lfll::succ::key_order;
use lfll::{AtomicSucc, Seedable, SuccData};

#[test]
fn succ_data_packs_pointer_and_bits() {
    let s = SuccData::new_flagged(5);
    let packed = s.into_packed();
    assert_eq!(packed, 5 * 4 + 2);
    let back = SuccData::from_packed(packed);
    assert_eq!(back.ptr, 5);
    assert!(!back.mark);
    assert!(back.flag);
}

#[test]
fn succ_data_round_trips() {
    for s in [
        SuccData::new(0),
        SuccData::new(7),
        SuccData::new_marked(9),
        SuccData::new_flagged(123456),
        SuccData { ptr: 3, mark: true, flag: true },
    ] {
        assert_eq!(SuccData::from_packed(s.into_packed()), s);
    }
    assert_eq!(SuccData::new_marked(1).into_packed(), 5);
    assert_eq!(SuccData::from_packed(11), SuccData { ptr: 2, mark: true, flag: true });
}

#[test]
fn atomic_succ_load_store() {
    let mut a = AtomicSucc::new(SuccData::new(4));
    assert_eq!(a.load(), SuccData::new(4));
    a.store(SuccData::new_marked(6));
    assert_eq!(a.load(), SuccData::new_marked(6));
    let d = AtomicSucc::default();
    assert_eq!(d.load(), SuccData::new(0));
}

#[test]
fn atomic_succ_compare_exchange() {
    let mut a = AtomicSucc::new(SuccData::new(4));
    assert_eq!(
        a.compare_exchange(SuccData::new(4), SuccData::new_flagged(4)),
        Ok(SuccData::new(4))
    );
    assert_eq!(a.load(), SuccData::new_flagged(4));
    assert_eq!(
        a.compare_exchange(SuccData::new(4), SuccData::new(9)),
        Err(SuccData::new_flagged(4))
    );
    assert_eq!(a.load(), SuccData::new_flagged(4));
}

#[test]
fn key_order_sorts_stably() {
    assert_eq!(key_order(&[30, 10, 20, 10]), vec![1, 3, 2, 0]);
    assert_eq!(key_order::<i32>(&[]), Vec::<usize>::new());
}

#[test]
fn mix_int_splitmix_values() {
    assert_eq!(mix_int(0), 0);
    assert_eq!(mix_int(1) as u64, 6238072747940578789);
    assert_eq!(mix_int(2) as u64, 15839785061582574730);
    assert_eq!(mix_int(u64::MAX) as u64, 13029008266876403067);
}

#[test]
fn seeds_of_integer_keys() {
    assert_eq!(50i32.generate_seed() as u64, 5273935210954647344);
    assert_eq!(50u8.generate_seed(), 50usize.generate_seed());
    assert_eq!((-1i64).generate_seed() as u64, 13029008266876403067);
}
