use circuitsim_engine::bitarray::{BitArray, BitState, LengthMismatch, RangedByte};

use BitState::{High, Imped, Low, Unk};

#[test]
fn parse_most_significant_first() {
    let b = BitArray::parse("10zX").unwrap();
    assert_eq!(b.to_states(), vec![Unk, Imped, Low, High]);
    assert_eq!(BitArray::parse("1").unwrap().to_states(), vec![High]);
    assert_eq!(BitArray::parse("").unwrap().len(), 0);
}

#[test]
fn parse_refuses_other_characters() {
    assert!(BitArray::parse("12").is_none());
    assert!(BitArray::parse("0b1").is_none());
    assert!(BitArray::parse(" 1").is_none());
}

#[test]
fn parse_refuses_more_than_64_bits() {
    let s64 = "1".repeat(64);
    assert_eq!(BitArray::parse(&s64).unwrap().len(), 64);
    let s65 = "1".repeat(65);
    assert!(BitArray::parse(&s65).is_none());
}

#[test]
fn resize_grows_with_fill_and_shrinks_from_the_end() {
    let b = BitArray::from_states(&[High, Low, Unk]);
    assert_eq!(b.resize(5, Low).to_states(), vec![High, Low, Unk, Low, Low]);
    assert_eq!(b.resize(2, Low).to_states(), vec![High, Low]);
    assert_eq!(b.resize(3, High), b);
    assert_eq!(b.resize(6, Imped).resize(3, Low), b);
    assert!(b.resize(0, High).is_empty());
}

#[test]
fn logic_is_four_state() {
    let a = BitArray::from_states(&[Low, High, Imped, Unk, High]);
    let b = BitArray::from_states(&[High, High, High, High, Low]);
    assert_eq!(a.and(b).to_states(), vec![Low, High, Unk, Unk, Low]);
    assert_eq!(a.or(b).to_states(), vec![High, High, High, High, High]);
    assert_eq!(a.xor(b).to_states(), vec![High, Low, Unk, Unk, High]);
    assert_eq!(a.not().to_states(), vec![High, Low, Unk, Unk, Low]);
}

#[test]
fn logic_laws_on_values() {
    let a = BitArray::from_states(&[Low, High, Imped, Unk, High, Low]);
    let b = BitArray::from_states(&[High, High, Low, Imped, Unk, Low]);
    assert_eq!(a.and(b), b.and(a));
    assert_eq!(a.or(b), b.or(a));
    assert_eq!(a.xor(b), b.xor(a));
    assert_eq!(a.and(b).not(), a.not().or(b.not()));
    assert_eq!(a.or(b).not(), a.not().and(b.not()));
    let driven = BitArray::from_states(&[Low, High, High]);
    assert_eq!(driven.not().not(), driven);
}

#[test]
fn replace_checks_length() {
    let mut a = BitArray::repeat(Low, 3);
    let b = BitArray::repeat(High, 3);
    assert_eq!(a.replace(b), Ok(()));
    assert_eq!(a, b);
    assert_eq!(a.replace(BitArray::repeat(Low, 2)), Err(LengthMismatch { expected: 3, found: 2 }));
    assert_eq!(a, b);
}

#[test]
fn subslice_and_index() {
    let a = BitArray::from_states(&[Low, High, Imped, Unk]);
    assert_eq!(a.subslice(1, 3).to_states(), vec![High, Imped]);
    assert_eq!(a.index(3), Unk);
    assert_eq!(a.with(0, High).to_states(), vec![High, High, Imped, Unk]);
    assert!(a.same_states(&a));
    assert!(!a.same_states(&a.with(0, High)));
}

#[test]
fn ranged_byte_bounds() {
    type R = RangedByte<1, 4>;
    assert!(R::new(0).is_none());
    assert_eq!(R::new(3).map(|r| r.get()), Some(3));
    assert!(R::new(5).is_none());
    assert_eq!(R::new_clamped(0).get(), 1);
    assert_eq!(R::new_clamped(9).get(), 4);
    let top = R::new(4).unwrap();
    assert!(top.incremented().is_none());
    assert_eq!(top.decremented().map(|r| r.get()), Some(3));
    let bottom = R::new(1).unwrap();
    assert!(bottom.decremented().is_none());
    assert_eq!(bottom.incremented().and_then(|r| r.decremented()).map(|r| r.get()), Some(1));
}
